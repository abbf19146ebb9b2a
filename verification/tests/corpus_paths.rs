use scirust_sciagent::corpus_paths::{
    inside_checkout, normalize_lexical, path_starts_with, PathPart, CORPUS_DIR_ENV, SHARDS_DIR_ENV,
};

fn parts(path: &str) -> Vec<PathPart> {
    let mut out = Vec::new();
    if path.starts_with('/') {
        out.push(PathPart::RootDir);
    }
    for name in path.split('/').filter(|s| !s.is_empty()) {
        out.push(match name {
            "." => PathPart::CurDir,
            ".." => PathPart::ParentDir,
            other => PathPart::Normal(other.to_string()),
        });
    }
    out
}

#[test]
fn normalization_drops_current_and_resolves_parent_components() {
    assert_eq!(normalize_lexical(&parts("/a/./b/../c")), parts("/a/c"));
    assert_eq!(normalize_lexical(&parts("/../x")), parts("/x"));
    assert_eq!(normalize_lexical(&parts("a/b/../../..")), parts(""));
}

#[test]
fn prefix_check_compares_whole_components() {
    assert!(path_starts_with(&parts("/work/repo/data"), &parts("/work/repo")));
    assert!(path_starts_with(&parts("/work/repo"), &parts("/work/repo")));
    assert!(!path_starts_with(&parts("/work/repository"), &parts("/work/repo")));
    assert!(!path_starts_with(&parts("/work"), &parts("/work/repo")));
}

#[test]
fn generated_data_inside_the_checkout_is_detected_lexically_or_resolved() {
    let workspace = parts("/work/repo");
    let inside = normalize_lexical(&parts("/work/repo/data/../data/crates_raw"));
    assert!(inside_checkout(&inside, &workspace, &parts("/elsewhere"), &workspace));
    let symlinked = parts("/work/link");
    assert!(inside_checkout(&symlinked, &workspace, &parts("/work/repo/data"), &workspace));
    assert!(!inside_checkout(
        &parts("/data/scirust"),
        &workspace,
        &parts("/data/scirust"),
        &workspace
    ));
}

#[test]
fn storage_environment_variables_are_stable() {
    assert_eq!(CORPUS_DIR_ENV, "SCIRUST_SCIAGENT_CORPUS_DIR");
    assert_eq!(SHARDS_DIR_ENV, "SCIRUST_SCIAGENT_SHARDS_DIR");
}
