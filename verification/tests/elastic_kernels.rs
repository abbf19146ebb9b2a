use scirust_sciagent::bpe_semantics::TokenId;
use scirust_sciagent::elastic_engine::ElasticBpeEngine;
use scirust_sciagent::elastic_heap::HeapBpe;
use scirust_sciagent::elastic_id::{
    try_compact_index, CompactWordError, PackedRule, PairKey, PairKeyError, PriorityKey, COMPACT_INDEX_INACTIVE,
    COMPACT_INDEX_MAX, COMPACT_INDEX_NONE,
};
use scirust_sciagent::elastic_indexed::{
    CompactCandidate, CompactNode, IndexedBpe,
};
use scirust_sciagent::elastic_linked::{WideCandidate, WideNode};
use scirust_sciagent::elastic_rule_table::AdaptivePackedRuleTable;
use scirust_sciagent::elastic_tiny::{TinyScanBpe, TINY_SCAN_CAPACITY};
use scirust_sciagent::elastic_tokenizer::{
    BpeKernel, CanonicalBpeOracle, DuplicateMergeRule, ElasticProfile, ElasticThresholds,
    PieceClass, ThresholdError,
};

fn thresholds() -> ElasticThresholds {
    ElasticThresholds::new(16, 64, 256, 1024, 4096).unwrap()
}

fn all_inputs(len: usize) -> Vec<Vec<TokenId>> {
    let cases = 3usize.pow(len as u32);
    let mut inputs = Vec::new();
    for mut encoded in 0..cases {
        let mut input = vec![1; len];
        for token in &mut input {
            *token = encoded % 3 + 1;
            encoded /= 3;
        }
        inputs.push(input);
    }
    inputs
}

// ---- canonical oracle and profile ----

#[test]
fn canonical_oracle_respects_rank_over_left_to_right_order() {
    const A: TokenId = 10;
    const B: TokenId = 11;
    const C: TokenId = 12;
    const BC: TokenId = 20;
    const AB: TokenId = 21;
    let oracle = CanonicalBpeOracle::from_ordered_merges(&[(B, C, BC), (A, B, AB)]).unwrap();
    assert_eq!(oracle.encode_ids(&[A, B, C]), vec![A, BC]);
}

#[test]
fn canonical_oracle_uses_leftmost_occurrence_for_same_rule() {
    const A: TokenId = 10;
    const AA: TokenId = 20;
    let oracle = CanonicalBpeOracle::from_ordered_merges(&[(A, A, AA)]).unwrap();
    assert_eq!(oracle.encode_ids(&[A, A, A]), vec![AA, A]);
}

#[test]
fn canonical_oracle_rejects_duplicate_pair_rules() {
    let err = CanonicalBpeOracle::from_ordered_merges(&[(1, 2, 3), (1, 2, 4)]).unwrap_err();
    assert_eq!(err, DuplicateMergeRule { left: 1, right: 2 });
}

#[test]
fn thresholds_cover_all_six_classes_without_chunking() {
    let thresholds = ElasticThresholds::new(16, 64, 256, 1024, 4096).unwrap();
    assert_eq!(thresholds.classify(0), PieceClass::S);
    assert_eq!(thresholds.classify(16), PieceClass::S);
    assert_eq!(thresholds.classify(17), PieceClass::M);
    assert_eq!(thresholds.classify(65), PieceClass::L);
    assert_eq!(thresholds.classify(257), PieceClass::Xl);
    assert_eq!(thresholds.classify(1025), PieceClass::Xxl);
    assert_eq!(thresholds.classify(4097), PieceClass::Xxxl);
}

#[test]
fn profile_routes_classes_without_affecting_semantics() {
    let thresholds = ElasticThresholds::new(16, 64, 256, 1024, 4096).unwrap();
    let profile = ElasticProfile::new(
        thresholds,
        [
            BpeKernel::TinyScan,
            BpeKernel::TinyScan,
            BpeKernel::Indexed,
            BpeKernel::Indexed,
            BpeKernel::Heap,
            BpeKernel::Heap,
        ],
    );
    assert_eq!(profile.kernel_for(8), BpeKernel::TinyScan);
    assert_eq!(profile.kernel_for(128), BpeKernel::Indexed);
    assert_eq!(profile.kernel_for(8192), BpeKernel::Heap);
}

#[test]
fn thresholds_must_be_strictly_increasing() {
    assert_eq!(ElasticThresholds::new(16, 16, 256, 1024, 4096), Err(ThresholdError));
}

#[test]
fn threshold_error_message_is_stable() {
    assert_eq!(
        ThresholdError.message(),
        "elastic tokenizer thresholds must be strictly increasing"
    );
}

#[test]
fn reference_profile_routes_every_length_to_the_oracle() {
    let profile = ElasticProfile::reference_only(thresholds());
    for len in [0usize, 16, 17, 300, 5000, usize::MAX] {
        assert_eq!(profile.kernel_for(len), BpeKernel::Reference);
    }
    assert_eq!(profile.class_for(5000), PieceClass::Xxxl);
    assert_eq!(profile.thresholds(), thresholds());
    assert_eq!(profile.kernels(), [BpeKernel::Reference; 6]);
}

#[test]
fn oracle_reports_first_repeated_pair_in_table_order() {
    let err =
        CanonicalBpeOracle::from_ordered_merges(&[(5, 6, 7), (1, 2, 3), (1, 2, 4), (5, 6, 8)])
            .unwrap_err();
    assert_eq!(err, DuplicateMergeRule { left: 1, right: 2 });
}

#[test]
fn oracle_encoding_is_idempotent_on_examples() {
    let merges = [(2, 3, 10), (1, 2, 11), (1, 10, 12), (11, 3, 13), (3, 3, 14), (14, 1, 15)];
    let oracle = CanonicalBpeOracle::from_ordered_merges(&merges).unwrap();
    for input in all_inputs(6) {
        let once = oracle.encode_ids(&input);
        assert_eq!(oracle.encode_ids(&once), once);
        assert!(once.len() <= input.len());
    }
}

#[test]
fn empty_oracle_leaves_pieces_unchanged() {
    let oracle = CanonicalBpeOracle::from_ordered_merges(&[]).unwrap();
    assert!(oracle.is_empty());
    assert_eq!(oracle.encode_ids(&[4, 5, 6]), vec![4, 5, 6]);
}

// ---- packed identifiers ----

#[test]
fn packed_words_are_exactly_one_u64() {
    assert_eq!(std::mem::size_of::<PairKey>(), 8);
    assert_eq!(std::mem::size_of::<PackedRule>(), 8);
    assert_eq!(std::mem::size_of::<PriorityKey>(), 8);
    if usize::BITS == 64 {
        assert_eq!(std::mem::size_of::<(usize, usize)>(), 16);
    }
}

#[test]
fn compact_index_sentinels_do_not_overlap_valid_indices() {
    assert!(COMPACT_INDEX_MAX < COMPACT_INDEX_INACTIVE);
    assert!(COMPACT_INDEX_INACTIVE < COMPACT_INDEX_NONE);
    assert_eq!(try_compact_index(0).unwrap(), 0);
    if usize::BITS > 32 {
        let reserved = usize::try_from(COMPACT_INDEX_INACTIVE).unwrap();
        assert!(try_compact_index(reserved).is_err());
    }
}

#[test]
fn pair_key_roundtrip_is_lossless() {
    for &(left, right) in &[(0, 0), (1, 2), (u32::MAX, 0), (0, u32::MAX), (u32::MAX, u32::MAX)] {
        let key = PairKey::new(left, right);
        assert_eq!(key.left(), left);
        assert_eq!(key.right(), right);
    }
}

#[test]
fn pair_key_order_matches_tuple_order() {
    let mut pairs = vec![(7u32, 9u32), (1, 8), (1, 2), (7, 3), (0, u32::MAX)];
    let mut keys = pairs
        .iter()
        .map(|&(left, right)| PairKey::new(left, right))
        .collect::<Vec<_>>();
    pairs.sort_unstable();
    keys.sort_unstable();
    let unpacked = keys.into_iter().map(|key| (key.left(), key.right())).collect::<Vec<_>>();
    assert_eq!(unpacked, pairs);
}

#[test]
fn packed_rule_roundtrip_is_lossless() {
    let rule = PackedRule::new(123, 456);
    assert_eq!(rule.rank(), 123);
    assert_eq!(rule.output(), 456);
}

#[test]
fn priority_key_order_matches_semantic_tuple_order() {
    let mut priorities = vec![(5u32, 2u32), (1, 90), (1, 3), (9, 0), (5, 1)];
    let mut keys = priorities
        .iter()
        .map(|&(rank, left)| PriorityKey::new(rank, left))
        .collect::<Vec<_>>();
    priorities.sort_unstable();
    keys.sort_unstable();
    let unpacked = keys.into_iter().map(|key| (key.rank(), key.left_index())).collect::<Vec<_>>();
    assert_eq!(unpacked, priorities);
}

#[test]
fn usize_narrowing_is_checked() {
    assert_eq!(PairKey::try_from_usize(4, 5).unwrap(), PairKey::new(4, 5));
    assert_eq!(PackedRule::try_from_usize(6, 7).unwrap(), PackedRule::new(6, 7));
    assert_eq!(PriorityKey::try_from_usize(8, 9).unwrap(), PriorityKey::new(8, 9));
    if usize::BITS > 32 {
        let too_wide = usize::try_from(u64::from(u32::MAX) + 1).unwrap();
        assert!(matches!(
            PairKey::try_from_usize(too_wide, 0),
            Err(PairKeyError::TokenIdTooWide(value)) if value == too_wide
        ));
        assert!(PackedRule::try_from_usize(too_wide, 0).is_err());
        assert!(PriorityKey::try_from_usize(0, too_wide).is_err());
    }
}

#[test]
fn packed_words_have_the_documented_layout() {
    assert_eq!(PairKey::new(1, 2).raw(), (1u64 << 32) | 2);
    assert_eq!(PackedRule::new(3, 4).raw(), (3u64 << 32) | 4);
    assert_eq!(PriorityKey::new(u32::MAX, 0).raw(), (u64::from(u32::MAX)) << 32);
    assert_eq!(try_compact_index(usize::try_from(COMPACT_INDEX_MAX).unwrap()).unwrap(), COMPACT_INDEX_MAX);
}

// ---- compact rule tables ----

#[test]
fn dense_rules_choose_csr_and_preserve_rank_payloads() {
    let merges = (0usize..512).map(|left| (left, left + 1, left + 1000)).collect::<Vec<_>>();
    let table = AdaptivePackedRuleTable::try_from_ordered_merges(&merges).unwrap().unwrap();
    assert!(table.is_csr());
    for (rank, &(left, right, output)) in merges.iter().enumerate() {
        let rule = table
            .get(u32::try_from(left).unwrap(), u32::try_from(right).unwrap())
            .unwrap();
        assert_eq!(usize::try_from(rule.rank()).unwrap(), rank);
        assert_eq!(usize::try_from(rule.output()).unwrap(), output);
    }
}

#[test]
fn sparse_high_left_id_uses_flat_fallback() {
    let table = AdaptivePackedRuleTable::try_from_ordered_merges(&[(100_000, 1, 2)]).unwrap().unwrap();
    assert!(!table.is_csr());
    assert_eq!(table.get(100_000, 1).unwrap().output(), 2);
}

#[test]
fn out_of_u32_domain_requests_wide_fallback() {
    if usize::BITS > 32 {
        let wide = usize::try_from(u64::from(u32::MAX) + 1).unwrap();
        assert!(AdaptivePackedRuleTable::try_from_ordered_merges(&[(wide, 1, 2)]).unwrap().is_none());
    }
}

#[test]
fn duplicate_pair_is_rejected() {
    let error = AdaptivePackedRuleTable::try_from_ordered_merges(&[(1, 2, 3), (1, 2, 4)]).err().unwrap();
    assert_eq!(error, DuplicateMergeRule { left: 1, right: 2 });
}

#[test]
fn empty_table_is_valid() {
    let table = AdaptivePackedRuleTable::try_from_ordered_merges(&[]).unwrap().unwrap();
    assert_eq!(table.get(1, 2), None);
    assert!(table.is_empty());
}

#[test]
fn compact_table_reports_least_duplicated_pair() {
    let error = AdaptivePackedRuleTable::try_from_ordered_merges(&[(9, 9, 1), (3, 4, 2), (9, 9, 5), (3, 4, 6)])
        .err()
        .unwrap();
    assert_eq!(error, DuplicateMergeRule { left: 3, right: 4 });
}

#[test]
fn csr_table_misses_absent_pairs() {
    let merges = (0usize..64).map(|left| (left, left + 1, left + 1000)).collect::<Vec<_>>();
    let table = AdaptivePackedRuleTable::try_from_ordered_merges(&merges).unwrap().unwrap();
    assert!(table.is_csr());
    assert_eq!(table.get(3, 3), None);
    assert_eq!(table.get(63, 64).unwrap().rank(), 63);
    assert_eq!(table.get(64, 65), None);
    assert_eq!(table.get(u32::MAX, 0), None);
}

// ---- tiny kernel ----

fn assert_tiny_parity(merges: &[(TokenId, TokenId, TokenId)], input: &[TokenId]) {
    let reference = CanonicalBpeOracle::from_ordered_merges(merges).unwrap();
    let tiny = TinyScanBpe::from_ordered_merges(merges).unwrap();
    assert_eq!(tiny.try_encode_ids(input).unwrap(), reference.encode_ids(input));
}

#[test]
fn compact_stack_buffer_is_half_width_on_64_bit_hosts() {
    assert_eq!(std::mem::size_of::<[u32; TINY_SCAN_CAPACITY]>(), 512);
    if usize::BITS == 64 {
        assert_eq!(std::mem::size_of::<[TokenId; TINY_SCAN_CAPACITY]>(), 1024);
    }
}

#[test]
fn normal_rule_tables_use_flat_compact_storage() {
    let tiny = TinyScanBpe::from_ordered_merges(&[(1, 2, 3), (3, 4, 5)]).unwrap();
    assert!(tiny.is_compact());
}

#[test]
fn tiny_scan_matches_rank_priority_conflict() {
    assert_tiny_parity(&[(2, 3, 10), (1, 2, 11)], &[1, 2, 3]);
}

#[test]
fn tiny_scan_matches_recursive_merges() {
    assert_tiny_parity(&[(1, 2, 10), (10, 3, 11), (11, 4, 12), (2, 3, 13)], &[1, 2, 3, 4]);
}

#[test]
fn tiny_scan_exhaustive_small_alphabet_parity() {
    let merges = [(2, 3, 10), (1, 2, 11), (1, 10, 12), (11, 3, 13), (3, 3, 14), (14, 1, 15)];
    let reference = CanonicalBpeOracle::from_ordered_merges(&merges).unwrap();
    let tiny = TinyScanBpe::from_ordered_merges(&merges).unwrap();
    for len in 0..=7 {
        for input in all_inputs(len) {
            assert_eq!(
                tiny.try_encode_ids(&input).unwrap(),
                reference.encode_ids(&input),
                "parity failed for input {input:?}"
            );
        }
    }
}

#[test]
fn oversized_piece_is_rejected_not_chunked() {
    let tiny = TinyScanBpe::from_ordered_merges(&[(1, 1, 2)]).unwrap();
    let input = vec![1; TINY_SCAN_CAPACITY + 1];
    assert_eq!(tiny.try_encode_ids(&input), None);
}

#[test]
fn wide_id_fallback_preserves_semantics() {
    if usize::BITS > 32 {
        let wide = usize::try_from(u64::from(u32::MAX) + 1).unwrap();
        let tiny = TinyScanBpe::from_ordered_merges(&[(wide, 1, 2)]).unwrap();
        assert!(!tiny.is_compact());
        assert_eq!(tiny.try_encode_ids(&[wide, 1]).unwrap(), vec![2]);
    }
}

#[test]
fn elastic_tiny_duplicate_rules_are_rejected_consistently() {
    let err = TinyScanBpe::from_ordered_merges(&[(1, 2, 3), (1, 2, 4)]).unwrap_err();
    assert_eq!(err, DuplicateMergeRule { left: 1, right: 2 });
}

#[test]
fn tiny_scan_accepts_exactly_its_capacity() {
    let tiny = TinyScanBpe::from_ordered_merges(&[(1, 1, 2)]).unwrap();
    let input = vec![1; TINY_SCAN_CAPACITY];
    assert_eq!(tiny.try_encode_ids(&input).unwrap(), vec![2; TINY_SCAN_CAPACITY / 2]);
}

#[test]
fn tiny_scan_compact_table_with_wide_input_id() {
    if usize::BITS > 32 {
        let wide = usize::try_from(u64::from(u32::MAX) + 1).unwrap();
        let tiny = TinyScanBpe::from_ordered_merges(&[(1, 2, 3)]).unwrap();
        assert!(tiny.is_compact());
        assert_eq!(tiny.try_encode_ids(&[1, 2, wide, 1, 2]).unwrap(), vec![3, wide, 3]);
    }
}

// ---- indexed kernel ----

fn assert_indexed_parity(merges: &[(TokenId, TokenId, TokenId)], input: &[TokenId]) {
    let reference = CanonicalBpeOracle::from_ordered_merges(merges).unwrap();
    let indexed = IndexedBpe::from_ordered_merges(merges).unwrap();
    assert_eq!(indexed.encode_ids(input), reference.encode_ids(input));
}

#[test]
fn compact_layout_reduces_working_set() {
    assert_eq!(std::mem::size_of::<CompactNode>(), 16);
    assert_eq!(std::mem::size_of::<CompactCandidate>(), 24);
    if usize::BITS == 64 {
        assert!(std::mem::size_of::<CompactNode>() < std::mem::size_of::<WideNode>());
        assert!(std::mem::size_of::<CompactCandidate>() < std::mem::size_of::<WideCandidate>());
    }
}

#[test]
fn elastic_indexed_normal_rule_tables_use_compact_words() {
    let indexed = IndexedBpe::from_ordered_merges(&[(1, 2, 3), (3, 4, 5)]).unwrap();
    assert!(indexed.is_compact());
}

#[test]
fn indexed_matches_rank_priority_conflict() {
    assert_indexed_parity(&[(2, 3, 10), (1, 2, 11)], &[1, 2, 3]);
}

#[test]
fn indexed_matches_recursive_and_overlapping_merges() {
    let merges = [(2, 3, 10), (1, 2, 11), (1, 10, 12), (11, 3, 13), (3, 3, 14), (14, 1, 15)];
    assert_indexed_parity(&merges, &[1, 2, 3, 3, 1]);
}

#[test]
fn indexed_exhaustive_small_alphabet_parity() {
    let merges = [(2, 3, 10), (1, 2, 11), (1, 10, 12), (11, 3, 13), (3, 3, 14), (14, 1, 15), (10, 14, 16)];
    let reference = CanonicalBpeOracle::from_ordered_merges(&merges).unwrap();
    let indexed = IndexedBpe::from_ordered_merges(&merges).unwrap();
    for len in 0..=8 {
        for input in all_inputs(len) {
            assert_eq!(
                indexed.encode_ids(&input),
                reference.encode_ids(&input),
                "indexed parity failed for input {input:?}"
            );
        }
    }
}

#[test]
fn indexed_matches_reference_on_long_repetitive_piece() {
    let merges = [(1, 1, 2), (2, 2, 3), (3, 3, 4), (4, 4, 5)];
    let input = vec![1; 1024];
    assert_indexed_parity(&merges, &input);
}

#[test]
fn elastic_indexed_wide_rule_fallback_preserves_semantics() {
    if usize::BITS > 32 {
        let wide = usize::try_from(u64::from(u32::MAX) + 1).unwrap();
        let indexed = IndexedBpe::from_ordered_merges(&[(wide, 1, 2)]).unwrap();
        assert!(!indexed.is_compact());
        assert!(!indexed.can_encode_compact(&[wide, 1]));
        assert_eq!(indexed.encode_ids(&[wide, 1]), vec![2]);
    }
}

#[test]
fn elastic_indexed_duplicate_rules_are_rejected_consistently() {
    let err = IndexedBpe::from_ordered_merges(&[(1, 2, 3), (1, 2, 4)]).err().unwrap();
    assert_eq!(err, DuplicateMergeRule { left: 1, right: 2 });
}

#[test]
fn indexed_compact_rules_take_wide_path_for_wide_input() {
    if usize::BITS > 32 {
        let wide = usize::try_from(u64::from(u32::MAX) + 1).unwrap();
        let indexed = IndexedBpe::from_ordered_merges(&[(1, 2, 3), (3, 3, 4)]).unwrap();
        assert!(indexed.is_compact());
        assert!(!indexed.can_encode_compact(&[1, 2, wide]));
        assert!(indexed.can_encode_compact(&[1, 2, 1, 2]));
        assert_eq!(indexed.encode_ids(&[1, 2, 1, 2, wide]), vec![4, wide]);
        assert_eq!(indexed.encode_ids(&[1, 2, 1, 2]), vec![4]);
    }
}

// ---- heap kernel ----

fn assert_heap_parity(merges: &[(TokenId, TokenId, TokenId)], input: &[TokenId]) {
    let reference = CanonicalBpeOracle::from_ordered_merges(merges).unwrap();
    let heap = HeapBpe::from_ordered_merges(merges).unwrap();
    assert_eq!(heap.encode_ids(input), reference.encode_ids(input));
}

#[test]
fn elastic_heap_normal_rule_tables_use_compact_words() {
    let heap = HeapBpe::from_ordered_merges(&[(1, 2, 3), (3, 4, 5)]).unwrap();
    assert!(heap.is_compact());
}

#[test]
fn heap_matches_rank_priority_conflict() {
    assert_heap_parity(&[(2, 3, 10), (1, 2, 11)], &[1, 2, 3]);
}

#[test]
fn heap_uses_leftmost_occurrence_for_equal_rank() {
    assert_heap_parity(&[(1, 1, 2)], &[1, 1, 1, 1, 1]);
}

#[test]
fn heap_matches_recursive_and_overlapping_merges() {
    let merges = [(2, 3, 10), (1, 2, 11), (1, 10, 12), (11, 3, 13), (3, 3, 14), (14, 1, 15), (10, 14, 16)];
    assert_heap_parity(&merges, &[1, 2, 3, 3, 1]);
}

#[test]
fn heap_exhaustive_small_alphabet_parity() {
    let merges = [(2, 3, 10), (1, 2, 11), (1, 10, 12), (11, 3, 13), (3, 3, 14), (14, 1, 15), (10, 14, 16)];
    let reference = CanonicalBpeOracle::from_ordered_merges(&merges).unwrap();
    let heap = HeapBpe::from_ordered_merges(&merges).unwrap();
    for len in 0..=8 {
        for input in all_inputs(len) {
            assert_eq!(
                heap.encode_ids(&input),
                reference.encode_ids(&input),
                "heap parity failed for input {input:?}"
            );
        }
    }
}

#[test]
fn heap_matches_reference_on_pathological_repetitive_piece() {
    let merges = [(1, 1, 2), (2, 2, 3), (3, 3, 4), (4, 4, 5), (5, 5, 6)];
    let input = vec![1; 8192];
    assert_heap_parity(&merges, &input);
}

#[test]
fn elastic_heap_wide_rule_fallback_preserves_semantics() {
    if usize::BITS > 32 {
        let wide = usize::try_from(u64::from(u32::MAX) + 1).unwrap();
        let heap = HeapBpe::from_ordered_merges(&[(wide, 1, 2)]).unwrap();
        assert!(!heap.is_compact());
        assert_eq!(heap.encode_ids(&[wide, 1]), vec![2]);
    }
}

#[test]
fn elastic_heap_duplicate_rules_are_rejected_consistently() {
    let err = HeapBpe::from_ordered_merges(&[(1, 2, 3), (1, 2, 4)]).unwrap_err();
    assert_eq!(err, DuplicateMergeRule { left: 1, right: 2 });
}

#[test]
fn heap_reports_first_repeated_pair_in_table_order() {
    let err = HeapBpe::from_ordered_merges(&[(9, 9, 1), (3, 4, 2), (9, 9, 5), (3, 4, 6)]).unwrap_err();
    assert_eq!(err, DuplicateMergeRule { left: 9, right: 9 });
}

// ---- router ----

#[test]
fn router_executes_tiny_kernel_with_canonical_result() {
    let profile = ElasticProfile::new(
        thresholds(),
        [
            BpeKernel::TinyScan,
            BpeKernel::Reference,
            BpeKernel::Reference,
            BpeKernel::Reference,
            BpeKernel::Reference,
            BpeKernel::Reference,
        ],
    );
    let engine = ElasticBpeEngine::from_ordered_merges(&[(2, 3, 10), (1, 2, 11)], profile).unwrap();
    let encoded = engine.encode_ids(&[1, 2, 3], 3);
    assert_eq!(encoded.ids, vec![1, 10]);
    assert_eq!(encoded.class, PieceClass::S);
    assert_eq!(encoded.requested_kernel, BpeKernel::TinyScan);
    assert_eq!(encoded.executed_kernel, BpeKernel::TinyScan);
}

#[test]
fn router_executes_indexed_kernel_with_canonical_result() {
    let profile = ElasticProfile::new(thresholds(), [BpeKernel::Indexed; 6]);
    let engine = ElasticBpeEngine::from_ordered_merges(&[(2, 3, 10), (1, 2, 11)], profile).unwrap();
    let encoded = engine.encode_ids(&[1, 2, 3], 128);
    assert_eq!(encoded.ids, vec![1, 10]);
    assert_eq!(encoded.class, PieceClass::L);
    assert_eq!(encoded.requested_kernel, BpeKernel::Indexed);
    assert_eq!(encoded.executed_kernel, BpeKernel::Indexed);
}

#[test]
fn oversized_tiny_request_falls_back_without_chunking() {
    let profile = ElasticProfile::new(thresholds(), [BpeKernel::TinyScan; 6]);
    let engine = ElasticBpeEngine::from_ordered_merges(&[(1, 1, 2)], profile).unwrap();
    let input = vec![1; TINY_SCAN_CAPACITY + 1];
    let encoded = engine.encode_ids(&input, input.len());
    let reference = CanonicalBpeOracle::from_ordered_merges(&[(1, 1, 2)]).unwrap();
    assert_eq!(encoded.ids, reference.encode_ids(&input));
    assert_eq!(encoded.requested_kernel, BpeKernel::TinyScan);
    assert_eq!(encoded.executed_kernel, BpeKernel::Reference);
}

#[test]
fn reserved_heap_identity_falls_back_explicitly() {
    let profile = ElasticProfile::new(thresholds(), [BpeKernel::Heap; 6]);
    let engine = ElasticBpeEngine::from_ordered_merges(&[(1, 2, 3)], profile).unwrap();
    let encoded = engine.encode_ids(&[1, 2], 8);
    assert_eq!(encoded.ids, vec![3]);
    assert_eq!(encoded.requested_kernel, BpeKernel::Heap);
    assert_eq!(encoded.executed_kernel, BpeKernel::Reference);
}

#[test]
fn profile_can_change_without_changing_token_ids() {
    let merges = [(2, 3, 10), (1, 2, 11)];
    let reference_profile = ElasticProfile::reference_only(thresholds());
    let tiny_profile = ElasticProfile::new(thresholds(), [BpeKernel::TinyScan; 6]);
    let indexed_profile = ElasticProfile::new(thresholds(), [BpeKernel::Indexed; 6]);
    let mut engine = ElasticBpeEngine::from_ordered_merges(&merges, reference_profile).unwrap();
    let reference = engine.encode_ids(&[1, 2, 3], 3).ids;
    engine.set_profile(tiny_profile);
    assert_eq!(engine.profile(), tiny_profile);
    let tiny = engine.encode_ids(&[1, 2, 3], 3).ids;
    engine.set_profile(indexed_profile);
    let indexed = engine.encode_ids(&[1, 2, 3], 3).ids;
    assert_eq!(reference, tiny);
    assert_eq!(reference, indexed);
}

#[test]
fn engine_rejects_duplicate_rules_with_first_repeated_pair() {
    let profile = ElasticProfile::reference_only(thresholds());
    let err = ElasticBpeEngine::from_ordered_merges(&[(7, 7, 1), (2, 2, 3), (7, 7, 4)], profile)
        .err()
        .unwrap();
    assert_eq!(err, DuplicateMergeRule { left: 7, right: 7 });
}

#[test]
fn narrowing_errors_name_the_field_that_overflowed() {
    let inactive = usize::try_from(COMPACT_INDEX_INACTIVE).unwrap();
    assert_eq!(
        try_compact_index(inactive),
        Err(CompactWordError::FieldTooWide { field: "node_index", value: inactive })
    );
    if usize::BITS > 32 {
        let wide = 1usize << 32;
        assert_eq!(
            PackedRule::try_from_usize(wide, 0),
            Err(CompactWordError::FieldTooWide { field: "merge_rank", value: wide })
        );
        assert_eq!(
            PackedRule::try_from_usize(0, wide),
            Err(CompactWordError::FieldTooWide { field: "output_token_id", value: wide })
        );
        assert_eq!(
            PriorityKey::try_from_usize(wide, 0),
            Err(CompactWordError::FieldTooWide { field: "merge_rank", value: wide })
        );
        assert_eq!(
            PriorityKey::try_from_usize(0, wide),
            Err(CompactWordError::FieldTooWide { field: "node_index", value: wide })
        );
    }
}
