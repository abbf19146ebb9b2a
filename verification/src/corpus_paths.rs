//! Storage policy for generated SCIAGENT training data.
//!
//! Training corpora are large, mutable machine-local artifacts. They must not
//! live below the source checkout: tools such as `grep -R` and `find` do not
//! honour ignore files and would otherwise traverse the corpus and its
//! aggregate symlinks. Paths are handled here as their components; the
//! caller reads the filesystem and the environment.

use vstd::prelude::*;

use crate::elastic_profile_store::same_text;

verus! {

/// Environment variable that overrides the external raw-corpus directory.
pub const CORPUS_DIR_ENV: &'static str = "SCIRUST_SCIAGENT_CORPUS_DIR";

/// Environment variable that overrides the external packed-shards directory.
pub const SHARDS_DIR_ENV: &'static str = "SCIRUST_SCIAGENT_SHARDS_DIR";

/// One component of a filesystem path.
#[derive(Clone, Debug, PartialEq, Eq)]
pub enum PathPart {
    /// A platform prefix such as a drive letter.
    Prefix(String),
    RootDir,
    CurDir,
    ParentDir,
    Normal(String),
}

/// A component with its names as text.
pub enum PartView {
    Prefix(Seq<char>),
    RootDir,
    CurDir,
    ParentDir,
    Normal(Seq<char>),
}

pub open spec fn part_view(p: PathPart) -> PartView {
    match p {
        PathPart::Prefix(s) => PartView::Prefix(s@),
        PathPart::RootDir => PartView::RootDir,
        PathPart::CurDir => PartView::CurDir,
        PathPart::ParentDir => PartView::ParentDir,
        PathPart::Normal(s) => PartView::Normal(s@),
    }
}

pub open spec fn parts_view(parts: Seq<PathPart>) -> Seq<PartView> {
    parts.map_values(|p: PathPart| part_view(p))
}

/// A path with `.` dropped and each `..` removing the last named component
/// before it, without touching the filesystem.
pub open spec fn normalized(parts: Seq<PartView>) -> Seq<PartView>
    decreases parts.len(),
{
    if parts.len() == 0 {
        Seq::empty()
    } else {
        let before = normalized(parts.drop_last());
        match parts.last() {
            PartView::CurDir => before,
            PartView::ParentDir => if before.len() > 0 && before.last() is Normal {
                before.drop_last()
            } else {
                before
            },
            p => before.push(p),
        }
    }
}

/// `base` is a whole-component prefix of `path`.
pub open spec fn starts_with(path: Seq<PartView>, base: Seq<PartView>) -> bool {
    base.len() <= path.len() && path.take(base.len() as int) == base
}

fn same_part(a: &PathPart, b: &PathPart) -> (same: bool)
    ensures
        same == (part_view(*a) == part_view(*b)),
{
    match (a, b) {
        (PathPart::Prefix(x), PathPart::Prefix(y)) => same_text(x.as_str(), y.as_str()),
        (PathPart::RootDir, PathPart::RootDir) => true,
        (PathPart::CurDir, PathPart::CurDir) => true,
        (PathPart::ParentDir, PathPart::ParentDir) => true,
        (PathPart::Normal(x), PathPart::Normal(y)) => same_text(x.as_str(), y.as_str()),
        _ => false,
    }
}

fn copy_part(p: &PathPart) -> (c: PathPart)
    ensures
        part_view(c) == part_view(*p),
{
    match p {
        PathPart::Prefix(s) => PathPart::Prefix(s.clone()),
        PathPart::RootDir => PathPart::RootDir,
        PathPart::CurDir => PathPart::CurDir,
        PathPart::ParentDir => PathPart::ParentDir,
        PathPart::Normal(s) => PathPart::Normal(s.clone()),
    }
}

/// Lexical normalization of a path's components.
pub fn normalize_lexical(parts: &[PathPart]) -> (result: Vec<PathPart>)
    ensures
        parts_view(result@) == normalized(parts_view(parts@)),
{
    let mut result: Vec<PathPart> = Vec::new();
    let mut i: usize = 0;
    while i < parts.len()
        invariant
            i <= parts.len(),
            parts_view(result@) == normalized(parts_view(parts@.take(i as int))),
        decreases parts.len() - i,
    {
        let ghost before = parts_view(result@);
        proof {
            assert(parts_view(parts@.take(i + 1)).drop_last() =~= parts_view(parts@.take(i as int)));
            assert(parts_view(parts@.take(i + 1)).last() == part_view(parts@[i as int]));
        }
        match &parts[i] {
            PathPart::CurDir => {},
            PathPart::ParentDir => {
                let n = result.len();
                if n > 0 {
                    let last_is_normal = match &result[n - 1] {
                        PathPart::Normal(_) => true,
                        _ => false,
                    };
                    if last_is_normal {
                        result.pop();
                        proof {
                            assert(parts_view(result@) =~= before.drop_last());
                        }
                    }
                }
            },
            p => {
                result.push(copy_part(p));
                proof {
                    assert(parts_view(result@) =~= before.push(part_view(parts@[i as int])));
                }
            },
        }
        i = i + 1;
    }
    assert(parts@.take(parts.len() as int) =~= parts@);
    result
}

/// Whether `base` is a whole-component prefix of `path`.
pub fn path_starts_with(path: &[PathPart], base: &[PathPart]) -> (result: bool)
    ensures
        result == starts_with(parts_view(path@), parts_view(base@)),
{
    if base.len() > path.len() {
        return false;
    }
    let mut i: usize = 0;
    while i < base.len()
        invariant
            base.len() <= path.len(),
            i <= base.len(),
            forall|j: int| 0 <= j < i ==> part_view(path@[j]) == part_view(base@[j]),
        decreases base.len() - i,
    {
        if !same_part(&path[i], &base[i]) {
            proof {
                assert(parts_view(path@).take(base.len() as int)[i as int] != parts_view(base@)[i as int]);
            }
            return false;
        }
        i = i + 1;
    }
    assert(parts_view(path@).take(base.len() as int) =~= parts_view(base@));
    true
}

/// Whether generated data at a path lies inside the source checkout, by its
/// lexical components or once symlinks are resolved. Both checks matter: an
/// in-tree symlink to an external corpus still makes `grep -R` traverse it.
pub fn inside_checkout(
    lexical_path: &[PathPart],
    lexical_workspace: &[PathPart],
    resolved_path: &[PathPart],
    resolved_workspace: &[PathPart],
) -> (inside: bool)
    ensures
        inside == (starts_with(parts_view(lexical_path@), parts_view(lexical_workspace@))
            || starts_with(parts_view(resolved_path@), parts_view(resolved_workspace@))),
{
    path_starts_with(lexical_path, lexical_workspace) || path_starts_with(resolved_path, resolved_workspace)
}

} // verus!
