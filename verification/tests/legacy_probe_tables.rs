use scirust_sciagent::byte_units::byte_to_unit;
use scirust_sciagent::elastic_text_tokenizer::{MergesField, TokenizerArtifact, VocabField};
use scirust_sciagent::legacy_parallel_bpe::{apply_packed, apply_wide};
use scirust_sciagent::elastic_id::{PackedRule, PairKey};
use scirust_sciagent::legacy_probe_tables::{load_canonical_probe, load_legacy_probe, ProbeOptions};

fn options(name: &str, packed: bool) -> ProbeOptions {
    ProbeOptions {
        name: name.to_string(),
        compact_byte_ids: packed,
        packed_rules: packed,
        duplicate_label: "duplicate merge pair".to_string(),
    }
}

fn artifact(rules: &[&str]) -> TokenizerArtifact {
    let mut entries: Vec<(String, usize)> = (0u8..=255)
        .map(|b| (byte_to_unit(b).to_string(), 4 + usize::from(b)))
        .collect();
    entries.push(("ab".to_string(), 260));
    TokenizerArtifact {
        merge_semantics: None,
        version: Some("byte_level_v2".to_string()),
        vocab: VocabField::Entries(entries),
        merges: MergesField::Items(rules.iter().map(|r| Some(r.to_string())).collect()),
    }
}

#[test]
fn loads_byte_ids_and_rules() {
    let tables = load_legacy_probe(&artifact(&["101 102 260"]), &options("probe", true)).unwrap();
    assert_eq!(tables.byte_ids.len(), 256);
    assert_eq!(tables.byte_ids[usize::from(b'a')], 101);
    assert_eq!(tables.merges.get(&(101, 102)), Some(&260));
    assert_eq!(tables.packed.len(), 1);
}

#[test]
fn packed_and_wide_tables_merge_alike() {
    let tables =
        load_legacy_probe(&artifact(&["101 102 260", "260 260 261"]), &options("probe", true))
            .unwrap();
    let ids: Vec<usize> = b"abab".iter().map(|&b| tables.byte_ids[usize::from(b)]).collect();
    let wide = apply_wide(ids.clone(), &tables.merges);
    let packed = apply_packed(ids, &tables.packed);
    assert_eq!(wide, vec![261]);
    assert_eq!(wide, packed);
}

#[test]
fn refusals_name_the_first_problem() {
    let mut a = artifact(&[]);
    a.version = None;
    assert_eq!(
        load_legacy_probe(&a, &options("LUT-width probe", false)).err().unwrap(),
        "LUT-width probe requires version=byte_level_v2"
    );
    let mut a = artifact(&[]);
    a.merge_semantics = Some("canonical-rank-v1".to_string());
    assert_eq!(
        load_legacy_probe(&a, &options("legacy cache probe", false)).err().unwrap(),
        "legacy cache probe rejects merge_semantics=canonical-rank-v1"
    );
    let mut a = artifact(&[]);
    a.merge_semantics = Some("legacy-parallel-v1".to_string());
    assert!(load_legacy_probe(&a, &options("probe", false)).is_ok());
    let mut a = artifact(&[]);
    a.vocab = VocabField::Missing;
    assert_eq!(
        load_legacy_probe(&a, &options("probe", false)).err().unwrap(),
        "tokenizer missing vocab"
    );
    let mut a = artifact(&[]);
    if let VocabField::Entries(entries) = &mut a.vocab {
        entries.retain(|(key, _)| key != "z");
    }
    assert_eq!(
        load_legacy_probe(&a, &options("probe", false)).err().unwrap(),
        "tokenizer missing byte token 122"
    );
    let mut a = artifact(&[]);
    if let VocabField::Entries(entries) = &mut a.vocab {
        entries[7].1 = 1 << 40;
    }
    assert_eq!(
        load_legacy_probe(&a, &options("probe", true)).err().unwrap(),
        "byte token 7 id 1099511627776 exceeds u32"
    );
    let mut a = artifact(&[]);
    a.merges = MergesField::NotArray;
    assert_eq!(
        load_legacy_probe(&a, &options("probe", false)).err().unwrap(),
        "tokenizer missing merges array"
    );
}

#[test]
fn malformed_rules_are_reported_by_index() {
    let cases: [(&[&str], &str); 5] = [
        (&["1 2"], "merge rule 0 missing output"),
        (&["1 2 3", "x 2 3"], "merge rule 1 has invalid left"),
        (&["1 2 3 4"], "merge rule 0 has extra fields"),
        (&["1 2 3", "1 2 4"], "duplicate merge pair (1, 2)"),
        (&["", "1 2 3"], "merge rule 0 missing left"),
    ];
    for (rules, message) in cases {
        assert_eq!(
            load_legacy_probe(&artifact(rules), &options("probe", false)).err().unwrap(),
            message
        );
    }
    let mut a = artifact(&[]);
    a.merges = MergesField::Items(vec![Some("1 2 3".to_string()), None]);
    assert_eq!(
        load_legacy_probe(&a, &options("probe", false)).err().unwrap(),
        "merge rule 1 is not a string"
    );
    assert_eq!(
        load_legacy_probe(&artifact(&["4294967296 2 3"]), &options("probe", true)).err().unwrap(),
        "merge rule 0: token id 4294967296 exceeds the compact u32 domain"
    );
    assert_eq!(
        load_legacy_probe(&artifact(&["1 2 4294967296"]), &options("probe", true)).err().unwrap(),
        "merge rule 0 output 4294967296 exceeds u32"
    );
    assert!(load_legacy_probe(&artifact(&["4294967296 2 3"]), &options("probe", false)).is_ok());
}

fn canonical(rules: &[&str]) -> TokenizerArtifact {
    let mut a = artifact(rules);
    a.merge_semantics = Some("canonical-rank-v1".to_string());
    a
}

#[test]
fn canonical_probe_reads_ranked_packed_rules() {
    let entries =
        load_canonical_probe(&canonical(&["101 102 260", "260 99 261"]), "CSR rule probe", true, Some(262))
            .unwrap();
    assert_eq!(entries.len(), 2);
    assert_eq!(entries[0].0, PairKey::new(101, 102));
    assert_eq!(entries[0].1, PackedRule::new(0, 260));
    assert_eq!(entries[1].0, PairKey::new(260, 99));
    assert_eq!(entries[1].1, PackedRule::new(1, 261));
}

#[test]
fn canonical_probe_refusals() {
    assert_eq!(
        load_canonical_probe(&artifact(&[]), "rule-table probe", false, None).err().unwrap(),
        "rule-table probe requires merge_semantics=canonical-rank-v1"
    );
    assert_eq!(
        load_canonical_probe(&canonical(&[]), "SoA CSR probe", true, None).err().unwrap(),
        "tokenizer missing vocab object"
    );
    assert!(load_canonical_probe(&canonical(&[]), "rule-table probe", false, None).is_ok());
    assert_eq!(
        load_canonical_probe(&canonical(&["1 2 4294967296"]), "p", false, None).err().unwrap(),
        "merge rule 0 has invalid output"
    );
    assert_eq!(
        load_canonical_probe(&canonical(&["1 2 3", "4 5"]), "p", false, None).err().unwrap(),
        "merge rule 1 missing output"
    );
    assert_eq!(
        load_canonical_probe(&canonical(&["1 2 3 9"]), "p", false, None).err().unwrap(),
        "merge rule 0 has extra fields"
    );
}

fn cache_probe_artifact(semantics: &str) -> TokenizerArtifact {
    let mut entries: Vec<(String, usize)> = vec![
        ("<pad>".to_string(), 0),
        ("<bos>".to_string(), 1),
        ("<eos>".to_string(), 2),
        ("<unk>".to_string(), 3),
    ];
    for b in 0u8..=255 {
        entries.push((byte_to_unit(b).to_string(), usize::from(b) + 4));
    }
    entries.push(("ab".to_string(), 260));
    entries.push(("bc".to_string(), 261));
    entries.sort();
    TokenizerArtifact {
        merge_semantics: Some(semantics.to_string()),
        version: Some("byte_level_v2".to_string()),
        vocab: VocabField::Entries(entries),
        merges: MergesField::Items(vec![
            Some("101 102 260".to_string()),
            Some("102 103 261".to_string()),
        ]),
    }
}

fn cache_probe_options() -> ProbeOptions {
    ProbeOptions {
        name: "legacy cache probe".to_string(),
        compact_byte_ids: false,
        packed_rules: false,
        duplicate_label: "duplicate legacy merge pair".to_string(),
    }
}

#[test]
fn canonical_semantics_are_rejected() {
    assert!(load_legacy_probe(&cache_probe_artifact("canonical-rank-v1"), &cache_probe_options()).is_err());
}

#[test]
fn cache_probe_tables_merge_in_parallel_passes() {
    let tables =
        load_legacy_probe(&cache_probe_artifact("legacy-parallel-v1"), &cache_probe_options()).unwrap();
    let encode = |text: &str| {
        let ids: Vec<usize> = text.bytes().map(|b| tables.byte_ids[usize::from(b)]).collect();
        apply_wide(ids, &tables.merges)
    };
    assert_eq!(encode("abc"), vec![260, 103]);
    assert_eq!(encode("ababc"), vec![260, 260, 103]);
    assert_eq!(encode("cab"), vec![103, 260]);
    assert_eq!(encode(""), Vec::<usize>::new());
}
