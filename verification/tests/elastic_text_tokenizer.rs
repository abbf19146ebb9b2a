use std::collections::BTreeMap;

use scirust_sciagent::byte_units::byte_to_unit;
use scirust_sciagent::elastic_profile_store::CANONICAL_BPE_SEMANTICS_V1;
use scirust_sciagent::elastic_text_tokenizer::{
    BpeMergeSemantics, ElasticTextTokenizer, ElasticTextTokenizerError, MergesField,
    TokenizerArtifact, VocabField, LEGACY_BPE_SEMANTICS_V1,
};
use scirust_sciagent::elastic_tokenizer::{BpeKernel, ElasticProfile, ElasticThresholds};

const SPECIALS: [(&str, usize); 4] = [("<pad>", 0), ("<bos>", 1), ("<eos>", 2), ("<unk>", 3)];

fn profile(kernel: BpeKernel) -> ElasticProfile {
    ElasticProfile::new(ElasticThresholds::new(8, 16, 32, 64, 128).unwrap(), [kernel; 6])
}

fn canonical_vocab() -> BTreeMap<String, usize> {
    let mut vocab = BTreeMap::new();
    for (token, id) in SPECIALS {
        vocab.insert(token.to_string(), id);
    }
    for byte in 0u8..=255 {
        vocab.insert(byte_to_unit(byte).to_string(), usize::from(byte) + 4);
    }
    // a=101, b=102, c=103 in the byte base because ids are byte+4.
    // `b+c` has the higher priority but occurs to the right of `a+b`.
    vocab.insert("bc".to_string(), 260);
    vocab.insert("ab".to_string(), 261);
    vocab
}

fn canonical_artifact() -> TokenizerArtifact {
    TokenizerArtifact {
        merge_semantics: Some(CANONICAL_BPE_SEMANTICS_V1.to_string()),
        version: Some("byte_level_v2".to_string()),
        vocab: VocabField::Entries(canonical_vocab().into_iter().collect()),
        merges: MergesField::Items(vec![
            Some("102 103 260".to_string()),
            Some("101 102 261".to_string()),
        ]),
    }
}

fn load(artifact: TokenizerArtifact, kernel: BpeKernel) -> Result<ElasticTextTokenizer, ElasticTextTokenizerError> {
    ElasticTextTokenizer::from_artifact(artifact, profile(kernel))
}

#[test]
fn untagged_artifact_is_never_silently_upgraded() {
    let mut artifact = canonical_artifact();
    artifact.merge_semantics = None;
    assert!(matches!(
        load(artifact, BpeKernel::Reference),
        Err(ElasticTextTokenizerError::MissingMergeSemantics)
    ));
}

#[test]
fn explicitly_legacy_artifact_is_rejected_by_canonical_path() {
    let mut artifact = canonical_artifact();
    artifact.merge_semantics = Some(LEGACY_BPE_SEMANTICS_V1.to_string());
    assert!(matches!(
        load(artifact, BpeKernel::Reference),
        Err(ElasticTextTokenizerError::LegacyMergeSemantics)
    ));
}

#[test]
fn merge_ids_must_exist_in_vocab() {
    let mut artifact = canonical_artifact();
    artifact.merges = MergesField::Items(vec![Some("102 103 999999".to_string())]);
    assert!(matches!(
        load(artifact, BpeKernel::Reference),
        Err(ElasticTextTokenizerError::MergeTokenOutOfVocab { rule_index: 0, token_id: 999999, .. })
    ));
}

#[test]
fn canonical_text_encoding_respects_rank_over_left_position() {
    let tokenizer = load(canonical_artifact(), BpeKernel::Reference).ok().unwrap();
    assert_eq!(tokenizer.encode("abc").ids, vec![101, 260]);
    assert_eq!(tokenizer.decode(&[101, 260]), "abc");
}

#[test]
fn execution_kernel_changes_without_changing_text_token_ids() {
    let reference = load(canonical_artifact(), BpeKernel::Reference).ok().unwrap();
    let tiny = load(canonical_artifact(), BpeKernel::TinyScan).ok().unwrap();
    let indexed = load(canonical_artifact(), BpeKernel::Indexed).ok().unwrap();
    let heap = load(canonical_artifact(), BpeKernel::Heap).ok().unwrap();

    let expected = reference.encode("abc").ids;
    assert_eq!(tiny.encode("abc").ids, expected);
    assert_eq!(indexed.encode("abc").ids, expected);
    assert_eq!(heap.encode("abc").ids, expected);
}

#[test]
fn merge_semantics_tags_are_stable() {
    assert_eq!(BpeMergeSemantics::LegacyParallelV1.as_str(), "legacy-parallel-v1");
    assert_eq!(BpeMergeSemantics::CanonicalRankV1.as_str(), "canonical-rank-v1");
}

#[test]
fn unknown_semantics_tag_is_reported_verbatim() {
    let mut artifact = canonical_artifact();
    artifact.merge_semantics = Some("rank-v9".to_string());
    match load(artifact, BpeKernel::Reference) {
        Err(ElasticTextTokenizerError::UnknownMergeSemantics(tag)) => assert_eq!(tag, "rank-v9"),
        _ => panic!("expected an unknown semantics error"),
    }
}

#[test]
fn vocabulary_field_errors_are_reported_in_order() {
    let mut artifact = canonical_artifact();
    artifact.vocab = VocabField::Missing;
    assert!(matches!(
        load(artifact, BpeKernel::Reference),
        Err(ElasticTextTokenizerError::MissingField("vocab"))
    ));

    let mut artifact = canonical_artifact();
    artifact.vocab = VocabField::Invalid("expected a map".to_string());
    match load(artifact, BpeKernel::Reference) {
        Err(ElasticTextTokenizerError::Json(message)) => assert_eq!(message, "expected a map"),
        _ => panic!("expected a JSON error"),
    }

    let mut artifact = canonical_artifact();
    artifact.vocab = VocabField::Entries(Vec::new());
    assert!(matches!(load(artifact, BpeKernel::Reference), Err(ElasticTextTokenizerError::EmptyVocab)));
}

#[test]
fn reverse_vocabulary_rejects_duplicate_and_sparse_ids() {
    let mut vocab = canonical_vocab();
    vocab.insert("zz".to_string(), 260);
    let mut artifact = canonical_artifact();
    artifact.vocab = VocabField::Entries(vocab.into_iter().collect());
    assert!(matches!(
        load(artifact, BpeKernel::Reference),
        Err(ElasticTextTokenizerError::DuplicateVocabId(260))
    ));

    let mut vocab = canonical_vocab();
    vocab.insert("zz".to_string(), 300);
    let mut artifact = canonical_artifact();
    artifact.vocab = VocabField::Entries(vocab.into_iter().collect());
    assert!(matches!(
        load(artifact, BpeKernel::Reference),
        Err(ElasticTextTokenizerError::SparseVocab(262))
    ));
}

#[test]
fn merge_field_errors_are_reported() {
    let mut artifact = canonical_artifact();
    artifact.merges = MergesField::Missing;
    assert!(matches!(
        load(artifact, BpeKernel::Reference),
        Err(ElasticTextTokenizerError::MissingField("merges"))
    ));

    let mut artifact = canonical_artifact();
    artifact.merges = MergesField::NotArray;
    assert!(matches!(
        load(artifact, BpeKernel::Reference),
        Err(ElasticTextTokenizerError::InvalidField("merges"))
    ));

    for (bad, index) in [
        (vec![Some("102 103 260".to_string()), None], 1),
        (vec![Some("102 103".to_string())], 0),
        (vec![Some("102 103 260 7".to_string())], 0),
        (vec![Some("102 x 260".to_string())], 0),
        (vec![Some("-1 103 260".to_string())], 0),
        (vec![Some("102 103 99999999999999999999999".to_string())], 0),
    ] {
        let mut artifact = canonical_artifact();
        artifact.merges = MergesField::Items(bad);
        match load(artifact, BpeKernel::Reference) {
            Err(ElasticTextTokenizerError::InvalidMergeRule(i)) => assert_eq!(i, index),
            _ => panic!("expected an invalid merge rule"),
        }
    }
}

#[test]
fn merge_rules_accept_unicode_whitespace_and_plus_signs() {
    let mut artifact = canonical_artifact();
    artifact.merges = MergesField::Items(vec![
        Some("\u{3000}+102\t103\u{a0} 260 ".to_string()),
        Some("101 102 261".to_string()),
    ]);
    let tokenizer = load(artifact, BpeKernel::Reference).ok().unwrap();
    assert_eq!(tokenizer.ordered_merges(), &[(102, 103, 260), (101, 102, 261)]);
}

#[test]
fn special_tokens_must_keep_their_ids() {
    let mut vocab = canonical_vocab();
    vocab.insert("<eos>".to_string(), 262);
    vocab.insert("<eos>".to_string(), 2);
    vocab.remove("<unk>");
    vocab.insert("<unk>".to_string(), 262);
    vocab.insert("filler".to_string(), 3);
    let mut artifact = canonical_artifact();
    artifact.vocab = VocabField::Entries(vocab.into_iter().collect());
    assert!(matches!(
        load(artifact, BpeKernel::Reference),
        Err(ElasticTextTokenizerError::InvalidSpecialToken("<unk>"))
    ));
}

#[test]
fn every_byte_needs_a_base_token() {
    let mut vocab = canonical_vocab();
    let unit = byte_to_unit(200).to_string();
    vocab.remove(&unit);
    vocab.insert("filler".to_string(), 204);
    let mut artifact = canonical_artifact();
    artifact.vocab = VocabField::Entries(vocab.into_iter().collect());
    assert!(matches!(
        load(artifact, BpeKernel::Reference),
        Err(ElasticTextTokenizerError::MissingByteToken(200))
    ));
}

#[test]
fn duplicate_merge_pairs_are_rejected() {
    let mut artifact = canonical_artifact();
    artifact.merges = MergesField::Items(vec![
        Some("102 103 260".to_string()),
        Some("102 103 261".to_string()),
    ]);
    match load(artifact, BpeKernel::Reference) {
        Err(ElasticTextTokenizerError::DuplicateMergeRule(rule)) => {
            assert_eq!((rule.left, rule.right), (102, 103));
        },
        _ => panic!("expected a duplicate merge rule"),
    }
}

#[test]
fn special_framing_and_lookup() {
    let tokenizer = load(canonical_artifact(), BpeKernel::Reference).ok().unwrap();
    assert_eq!(tokenizer.special_id("<bos>"), 1);
    assert_eq!(tokenizer.special_id("<missing>"), 3);
    assert_eq!(tokenizer.encode_with_special("abc", true, true), vec![1, 101, 260, 2]);
    assert_eq!(tokenizer.encode_with_special("abc", false, true), vec![101, 260, 2]);
    assert_eq!(tokenizer.vocab_size(), 262);
    assert_eq!(tokenizer.merge_semantics(), BpeMergeSemantics::CanonicalRankV1);
}

#[test]
fn reversible_decode_skips_specials_and_unknown_ids_and_reads_utf8() {
    let tokenizer = load(canonical_artifact(), BpeKernel::Reference).ok().unwrap();
    // "é" is 0xC3 0xA9; each byte has its own unit id (byte + 4).
    let ids = [1, 0xC3 + 4, 0xA9 + 4, 9999, 2];
    assert_eq!(tokenizer.decode(&ids), "é");
    // A lone continuation byte is not valid UTF-8 and becomes U+FFFD.
    assert_eq!(tokenizer.decode(&[0xA9 + 4]), "\u{FFFD}");
    let encoded = tokenizer.encode("héllo").ids;
    assert_eq!(tokenizer.decode(&encoded), "héllo");
}

#[test]
fn legacy_vocabularies_decode_text_tokens_only() {
    let mut vocab = BTreeMap::new();
    for (token, id) in SPECIALS {
        vocab.insert(token.to_string(), id);
    }
    for byte in 0u8..=255 {
        let key = if byte < 128 { (byte as char).to_string() } else { format!("<{byte}>") };
        vocab.insert(key, usize::from(byte) + 4);
    }
    vocab.insert("ab".to_string(), 260);
    let artifact = TokenizerArtifact {
        merge_semantics: Some(CANONICAL_BPE_SEMANTICS_V1.to_string()),
        version: None,
        vocab: VocabField::Entries(vocab.into_iter().collect()),
        merges: MergesField::Items(vec![Some("101 102 260".to_string())]),
    };
    let tokenizer = load(artifact, BpeKernel::Reference).ok().unwrap();
    assert_eq!(tokenizer.encode("abc").ids, vec![260, 103]);
    assert_eq!(tokenizer.decode(&[1, 260, 103, 200 + 4, 2]), "abc");
}
