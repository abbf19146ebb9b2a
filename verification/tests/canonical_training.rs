use scirust_sciagent::canonical_bpe_train::{
    apply_one_merge, CanonicalBpeTrainError, CanonicalBpeTrainer, BASE_VOCAB_SIZE,
    SPECIAL_TOKEN_COUNT,
};
use scirust_sciagent::cuda_decode_execution_attestation::{
    cuda_decode_kernel_semantic_version, CudaDecodeModes, KERNEL_FUSED_CUBLAS_FUSED,
};
use scirust_sciagent::elastic_profile_store::ordered_merges_fingerprint;

#[test]
fn tie_break_is_pair_id_ascending_and_deterministic() {
    // "abac" contains a-b and a-c once each; their counts tie, so (a,b)
    // wins because the base byte ids preserve byte ordering.
    let artifact = CanonicalBpeTrainer::new(BASE_VOCAB_SIZE + 1)
        .unwrap()
        .min_frequency(1)
        .train(&["abac".to_string()])
        .unwrap();
    let a = SPECIAL_TOKEN_COUNT + usize::from(b'a');
    let b = SPECIAL_TOKEN_COUNT + usize::from(b'b');
    assert_eq!(artifact.ordered_merges()[0], (a, b, BASE_VOCAB_SIZE));
}

#[test]
fn training_is_bit_deterministic() {
    let texts = vec!["fn alpha() { alpha(); }".repeat(10), "fn beta() { beta(); }".repeat(10)];
    let train = || {
        CanonicalBpeTrainer::new(BASE_VOCAB_SIZE + 24)
            .unwrap()
            .min_frequency(1)
            .train(&texts)
            .unwrap()
    };
    assert_eq!(train(), train());
}

#[test]
fn learned_merge_ids_are_strict_rank_order() {
    let artifact = CanonicalBpeTrainer::new(BASE_VOCAB_SIZE + 12)
        .unwrap()
        .min_frequency(1)
        .train(&["aaaaabbbbcccdde".repeat(4)])
        .unwrap();
    for pair in artifact.ordered_merges().windows(2) {
        assert!(pair[0].2 < pair[1].2);
    }
}

#[test]
fn rejects_vocab_smaller_than_specials_plus_all_bytes() {
    assert!(matches!(
        CanonicalBpeTrainer::new(BASE_VOCAB_SIZE - 1),
        Err(CanonicalBpeTrainError::VocabTooSmall { .. })
    ));
}

#[test]
fn training_stops_below_min_frequency_and_names_tokens() {
    let artifact = CanonicalBpeTrainer::new(BASE_VOCAB_SIZE + 8)
        .unwrap()
        .min_frequency(3)
        .train(&["abab".to_string()])
        .unwrap();
    // (a,b) occurs twice, below the minimum frequency of three.
    assert!(artifact.ordered_merges().is_empty());
    assert_eq!(artifact.vocab_size(), BASE_VOCAB_SIZE);

    let artifact = CanonicalBpeTrainer::new(BASE_VOCAB_SIZE + 8)
        .unwrap()
        .min_frequency(2)
        .train(&["abab".to_string()])
        .unwrap();
    let a = SPECIAL_TOKEN_COUNT + usize::from(b'a');
    let b = SPECIAL_TOKEN_COUNT + usize::from(b'b');
    assert_eq!(artifact.ordered_merges()[0], (a, b, BASE_VOCAB_SIZE));
    assert_eq!(artifact.token_strings()[BASE_VOCAB_SIZE], "ab");
    assert_eq!(artifact.token_strings()[0], "<pad>");
}

#[test]
fn apply_one_merge_replaces_left_to_right_without_overlap() {
    let mut tokens = vec![1, 1, 1, 2, 1, 1];
    apply_one_merge(&mut tokens, 1, 1, 9);
    assert_eq!(tokens, vec![9, 1, 2, 9]);
}

#[test]
fn ordered_merge_fingerprint_depends_on_order_and_content() {
    let a = ordered_merges_fingerprint(&[(1, 2, 3), (3, 4, 5)]);
    let b = ordered_merges_fingerprint(&[(3, 4, 5), (1, 2, 3)]);
    let c = ordered_merges_fingerprint(&[(1, 2, 3), (3, 4, 6)]);
    assert_ne!(a, b);
    assert_ne!(a, c);
    assert_eq!(a, ordered_merges_fingerprint(&[(1, 2, 3), (3, 4, 5)]));
    assert_eq!(a.len(), 64);
}

#[test]
fn default_i250_modes_have_stable_semantic_identity() {
    assert_eq!(cuda_decode_kernel_semantic_version(CudaDecodeModes::default()), KERNEL_FUSED_CUBLAS_FUSED);
}

#[test]
fn trained_size_stays_within_the_target() {
    for extra in [0usize, 1, 5, 40] {
        let artifact = CanonicalBpeTrainer::new(BASE_VOCAB_SIZE + extra)
            .unwrap()
            .min_frequency(1)
            .train(&["abcabcabd".repeat(3)])
            .unwrap();
        assert!(artifact.ordered_merges().len() <= extra);
        assert_eq!(artifact.vocab_size(), BASE_VOCAB_SIZE + artifact.ordered_merges().len());
    }
}
