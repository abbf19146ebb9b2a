use scirust_sciagent::bpe_dispatch::{
    declared_semantics, reference_profile, BpeDispatchError, SemanticsField,
};
use scirust_sciagent::canonical_bpe_train::{CanonicalBpeTrainer, BASE_VOCAB_SIZE};
use scirust_sciagent::elastic_profile_store::{
    kernel_name, ordered_merges_fingerprint, DocField, ElasticHardwareIdentity, HardwareDocument,
    ProfileDocument, ProfileStoreError, StoredElasticProfile, ThresholdsDocument,
    CANONICAL_BPE_SEMANTICS_V1, ELASTIC_PROFILE_SCHEMA_V1, ELASTIC_PROFILE_SCHEMA_V2,
};
use scirust_sciagent::elastic_text_tokenizer::{BpeMergeSemantics, ElasticTextTokenizer};
use scirust_sciagent::elastic_tokenizer::{BpeKernel, ElasticProfile, ElasticThresholds};

fn sample_profile() -> ElasticProfile {
    ElasticProfile::new(
        ElasticThresholds::new(16, 64, 256, 1024, 4096).unwrap(),
        [
            BpeKernel::TinyScan,
            BpeKernel::TinyScan,
            BpeKernel::Indexed,
            BpeKernel::Indexed,
            BpeKernel::Heap,
            BpeKernel::Heap,
        ],
    )
}

fn written(stored: &StoredElasticProfile) -> ProfileDocument {
    stored.to_document().unwrap()
}

#[test]
fn stored_profile_roundtrips_and_verifies() {
    let merges = [(1, 2, 3), (3, 4, 5)];
    let hardware = ElasticHardwareIdentity::new("aarch64", "linux", "thor-class");
    let stored = StoredElasticProfile::new(&merges, hardware.clone(), sample_profile());
    assert_eq!(stored.schema_version, ELASTIC_PROFILE_SCHEMA_V2);
    assert!(stored.payload_fingerprint.is_some());
    let document = written(&stored);
    let loaded = StoredElasticProfile::from_document(document).unwrap();
    assert_eq!(stored, loaded);
    loaded.verify_for(&merges, &hardware).unwrap();
}

#[test]
fn tokenizer_mismatch_is_rejected() {
    let hardware = ElasticHardwareIdentity::new("x86_64", "linux", "cpu-a");
    let stored = StoredElasticProfile::new(&[(1, 2, 3)], hardware.clone(), sample_profile());
    assert!(matches!(
        stored.verify_for(&[(1, 2, 4)], &hardware),
        Err(ProfileStoreError::TokenizerFingerprintMismatch)
    ));
}

#[test]
fn hardware_mismatch_is_rejected() {
    let merges = [(1, 2, 3)];
    let stored = StoredElasticProfile::new(
        &merges,
        ElasticHardwareIdentity::new("x86_64", "linux", "cpu-a"),
        sample_profile(),
    );
    let other = ElasticHardwareIdentity::new("aarch64", "linux", "cpu-b");
    assert!(matches!(
        stored.verify_for(&merges, &other),
        Err(ProfileStoreError::HardwareMismatch)
    ));
}

#[test]
fn corrupted_hardware_fingerprint_is_rejected_on_load() {
    let merges = [(1, 2, 3)];
    let stored = StoredElasticProfile::new(
        &merges,
        ElasticHardwareIdentity::new("x86_64", "linux", "cpu-a"),
        sample_profile(),
    );
    let mut document = written(&stored);
    document.hardware.as_mut().unwrap().fingerprint = DocField::Present("bad".to_string());
    assert!(matches!(
        StoredElasticProfile::from_document(document),
        Err(ProfileStoreError::HardwareFingerprintCorrupt)
    ));
}

#[test]
fn corrupted_threshold_payload_is_rejected_on_load() {
    let stored = StoredElasticProfile::new(
        &[(1, 2, 3)],
        ElasticHardwareIdentity::new("x86_64", "linux", "cpu-a"),
        sample_profile(),
    );
    let mut document = written(&stored);
    document.thresholds.as_mut().unwrap().m_max = DocField::Present(65);
    assert!(matches!(
        StoredElasticProfile::from_document(document),
        Err(ProfileStoreError::PayloadFingerprintCorrupt)
    ));
}

#[test]
fn corrupted_kernel_payload_is_rejected_on_load() {
    let stored = StoredElasticProfile::new(
        &[(1, 2, 3)],
        ElasticHardwareIdentity::new("x86_64", "linux", "cpu-a"),
        sample_profile(),
    );
    let mut document = written(&stored);
    document.kernels.as_mut().unwrap()[0] = Some("reference".to_string());
    assert!(matches!(
        StoredElasticProfile::from_document(document),
        Err(ProfileStoreError::PayloadFingerprintCorrupt)
    ));
}

#[test]
fn legacy_v1_profile_remains_readable() {
    let hardware = ElasticHardwareIdentity::new("x86_64", "linux", "cpu-a");
    let profile = sample_profile();
    let thresholds = profile.thresholds();
    let kernels = profile
        .kernels()
        .into_iter()
        .map(|k| Some(kernel_name(k).to_string()))
        .collect::<Vec<_>>();
    let document = ProfileDocument {
        schema_version: DocField::Present(u64::from(ELASTIC_PROFILE_SCHEMA_V1)),
        bpe_semantics: DocField::Present(CANONICAL_BPE_SEMANTICS_V1.to_string()),
        tokenizer_fingerprint: DocField::Present(ordered_merges_fingerprint(&[(1, 2, 3)])),
        hardware: Some(HardwareDocument {
            arch: DocField::Present(hardware.arch.clone()),
            os: DocField::Present(hardware.os.clone()),
            device: DocField::Present(hardware.device.clone()),
            fingerprint: DocField::Present(hardware.fingerprint()),
        }),
        thresholds: Some(ThresholdsDocument {
            s_max: DocField::Present(thresholds.s_max as u64),
            m_max: DocField::Present(thresholds.m_max as u64),
            l_max: DocField::Present(thresholds.l_max as u64),
            xl_max: DocField::Present(thresholds.xl_max as u64),
            xxl_max: DocField::Present(thresholds.xxl_max as u64),
        }),
        kernels: Some(kernels),
        payload_fingerprint: DocField::Missing,
    };
    let loaded = StoredElasticProfile::from_document(document).unwrap();
    assert_eq!(loaded.schema_version, ELASTIC_PROFILE_SCHEMA_V1);
    assert_eq!(loaded.payload_fingerprint, None);
    loaded
        .verify_for(&[(1, 2, 3)], &hardware)
        .expect("legacy v1 profile remains compatible");
}

#[test]
fn document_field_errors_follow_reading_order() {
    let stored = StoredElasticProfile::new(
        &[(1, 2, 3)],
        ElasticHardwareIdentity::new("x86_64", "linux", "cpu-a"),
        sample_profile(),
    );
    let mut document = written(&stored);
    document.schema_version = DocField::Present(7);
    assert!(matches!(
        StoredElasticProfile::from_document(document),
        Err(ProfileStoreError::UnsupportedSchema(7))
    ));
    let mut document = written(&stored);
    document.schema_version = DocField::Present(u64::from(u32::MAX) + 1);
    assert!(matches!(
        StoredElasticProfile::from_document(document),
        Err(ProfileStoreError::InvalidField("schema_version"))
    ));
    let mut document = written(&stored);
    document.hardware = None;
    document.thresholds = None;
    assert!(matches!(
        StoredElasticProfile::from_document(document),
        Err(ProfileStoreError::MissingField("hardware"))
    ));
    let mut document = written(&stored);
    document.kernels.as_mut().unwrap().pop();
    assert!(matches!(
        StoredElasticProfile::from_document(document),
        Err(ProfileStoreError::InvalidKernelCount(5))
    ));
    let mut document = written(&stored);
    document.kernels.as_mut().unwrap()[2] = Some("warp".to_string());
    match StoredElasticProfile::from_document(document) {
        Err(ProfileStoreError::UnknownKernel(name)) => assert_eq!(name, "warp"),
        other => panic!("unexpected {other:?}"),
    }
    let mut document = written(&stored);
    document.kernels.as_mut().unwrap()[1] = None;
    assert!(matches!(
        StoredElasticProfile::from_document(document),
        Err(ProfileStoreError::InvalidField("kernels"))
    ));
    let mut document = written(&stored);
    document.thresholds.as_mut().unwrap().l_max = DocField::Present(10);
    assert!(matches!(
        StoredElasticProfile::from_document(document),
        Err(ProfileStoreError::InvalidThresholds(_))
    ));
    let mut document = written(&stored);
    document.payload_fingerprint = DocField::Invalid;
    assert!(matches!(
        StoredElasticProfile::from_document(document),
        Err(ProfileStoreError::InvalidField("payload_fingerprint"))
    ));
}

#[test]
fn v1_document_with_payload_fingerprint_is_rejected() {
    let stored = StoredElasticProfile::new(
        &[(1, 2, 3)],
        ElasticHardwareIdentity::new("x86_64", "linux", "cpu-a"),
        sample_profile(),
    );
    let mut document = written(&stored);
    document.schema_version = DocField::Present(u64::from(ELASTIC_PROFILE_SCHEMA_V1));
    assert!(matches!(
        StoredElasticProfile::from_document(document),
        Err(ProfileStoreError::UnexpectedPayloadFingerprint)
    ));
}

#[test]
fn missing_semantics_is_legacy() {
    assert_eq!(
        declared_semantics(&SemanticsField::Missing).unwrap(),
        BpeMergeSemantics::LegacyParallelV1
    );
}

#[test]
fn explicit_legacy_semantics_is_legacy() {
    assert_eq!(
        declared_semantics(&SemanticsField::Text("legacy-parallel-v1".to_string())).unwrap(),
        BpeMergeSemantics::LegacyParallelV1
    );
}

#[test]
fn explicit_canonical_semantics_selects_elastic_path() {
    assert_eq!(
        declared_semantics(&SemanticsField::Text("canonical-rank-v1".to_string())).unwrap(),
        BpeMergeSemantics::CanonicalRankV1
    );
}

#[test]
fn unknown_semantics_fails_closed() {
    assert!(matches!(
        declared_semantics(&SemanticsField::Text("future-v99".to_string())),
        Err(BpeDispatchError::UnknownMergeSemantics(_))
    ));
}

#[test]
fn non_string_semantics_fails_closed() {
    // `null`, `42` and `true` are all present but not strings.
    for _input in ["null", "42", "true"] {
        assert!(matches!(
            declared_semantics(&SemanticsField::NotString),
            Err(BpeDispatchError::InvalidMergeSemanticsType)
        ));
    }
}

#[test]
fn serialized_artifact_is_consumable_by_elastic_text_tokenizer() {
    let artifact = CanonicalBpeTrainer::new(BASE_VOCAB_SIZE + 16)
        .unwrap()
        .min_frequency(1)
        .train(&["abc abc abc".repeat(8)])
        .unwrap();
    let tokenizer = ElasticTextTokenizer::from_artifact(
        artifact.tokenizer_artifact(),
        reference_profile().unwrap(),
    )
    .unwrap();
    let text = "abc abc";
    let ids = tokenizer.encode(text).ids;
    assert_eq!(tokenizer.decode(&ids), text);
}

#[test]
fn trained_artifact_loads_with_the_trained_merges() {
    let artifact = CanonicalBpeTrainer::new(BASE_VOCAB_SIZE + 12)
        .unwrap()
        .min_frequency(1)
        .train(&["aaaaabbbbcccdde".repeat(4), "ab ab cd".to_string()])
        .unwrap();
    let tokenizer = ElasticTextTokenizer::from_artifact(
        artifact.tokenizer_artifact(),
        reference_profile().unwrap(),
    )
    .unwrap();
    assert_eq!(tokenizer.ordered_merges(), artifact.ordered_merges());
    assert_eq!(tokenizer.vocab_size(), artifact.vocab_size());
}

#[test]
fn trained_tokenizer_decodes_what_it_encodes() {
    let artifact = CanonicalBpeTrainer::new(BASE_VOCAB_SIZE + 40)
        .unwrap()
        .min_frequency(1)
        .train(&["héllo wörld, héllo ∑ wörld".repeat(4), "abc abc".to_string()])
        .unwrap();
    let tokenizer = ElasticTextTokenizer::from_artifact(
        artifact.tokenizer_artifact(),
        reference_profile().unwrap(),
    )
    .unwrap();
    for text in ["", "héllo wörld", "∑∑ abc", "unseen text 123 ✓"] {
        let ids = tokenizer.encode(text).ids;
        assert_eq!(tokenizer.decode(&ids), text);
    }
}
