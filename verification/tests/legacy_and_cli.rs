use std::collections::BTreeMap;

use scirust_sciagent::byte_units::byte_to_unit;
use scirust_sciagent::cli_inputs::{parse_line_range, parse_lengths, parse_probe_lengths, parse_tiny_lengths};
use scirust_sciagent::elastic_calibration::median;
use scirust_sciagent::elastic_id::PairKey;
use scirust_sciagent::elastic_profile_store::{kernel_name, parse_kernel};
use scirust_sciagent::elastic_tokenizer::BpeKernel;
use scirust_sciagent::ingress_width::{current_ingress, direct_ingress, same_ingress_ids, ByteLuts};
use scirust_sciagent::legacy_parallel_bpe::{apply_packed, apply_parallel_merges, apply_wide, merge_pass};

fn wide(rules: &[((usize, usize), usize)]) -> BTreeMap<(usize, usize), usize> {
    rules.iter().copied().collect()
}

#[test]
fn merge_pass_preserves_parallel_semantics() {
    let merges = wide(&[((1, 2), 10), ((10, 3), 11)]);
    let mut output = Vec::new();
    assert!(merge_pass(&[1, 2, 3], &mut output, &merges));
    assert_eq!(output, vec![10, 3]);
    let mut second = Vec::new();
    assert!(merge_pass(&output, &mut second, &merges));
    assert_eq!(second, vec![11]);
}

#[test]
fn unchanged_pass_is_reported_without_mutating_input() {
    let merges = BTreeMap::new();
    let input = vec![1, 2, 3];
    let mut output = Vec::new();
    assert!(!merge_pass(&input, &mut output, &merges));
    assert_eq!(input, vec![1, 2, 3]);
    assert_eq!(output, input);
}

#[test]
fn merge_loop_preserves_historical_parallel_passes() {
    let merges = wide(&[((1, 2), 10), ((10, 3), 11)]);
    assert_eq!(apply_parallel_merges(vec![1, 2, 3], &merges), vec![11]);
}

#[test]
fn packed_and_wide_parallel_passes_match() {
    let wide_rules = wide(&[((1, 2), 10), ((10, 3), 11)]);
    let packed: BTreeMap<u64, u32> =
        [(PairKey::new(1, 2).raw(), 10u32), (PairKey::new(10, 3).raw(), 11u32)].into_iter().collect();
    assert_eq!(apply_wide(vec![1, 2, 3], &wide_rules), vec![11]);
    assert_eq!(apply_packed(vec![1, 2, 3], &packed), vec![11]);
}

#[test]
fn packed_payload_is_smaller_on_64_bit_hosts() {
    if usize::BITS == 64 {
        assert!(std::mem::size_of::<(PairKey, u32)>() < std::mem::size_of::<((usize, usize), usize)>());
    }
}

#[test]
fn pad_pairs_never_merge_in_guarded_passes() {
    let merges = wide(&[((0, 1), 7), ((1, 1), 8)]);
    let mut output = Vec::new();
    assert!(!merge_pass(&[0, 1], &mut output, &merges));
    assert_eq!(output, vec![0, 1]);
    assert_eq!(apply_wide(vec![0, 1, 1, 1], &merges), vec![0, 8, 1]);
    assert_eq!(apply_parallel_merges(vec![0, 1, 1, 1], &merges), vec![7, 8]);
}

#[test]
fn overlapping_pairs_merge_leftmost_first_in_one_pass() {
    let merges = wide(&[((1, 1), 5)]);
    let mut output = vec![9];
    assert!(merge_pass(&[1, 1, 1], &mut output, &merges));
    assert_eq!(output, vec![9, 5, 1]);
}

fn median_is_overflow_safe_case() {
    assert_eq!(median(&[u64::MAX - 1, u64::MAX]), Some(u64::MAX - 1));
}

#[test]
fn legacy_bpe_buffer_reuse_probe_median_is_overflow_safe() {
    median_is_overflow_safe_case();
}

#[test]
fn legacy_bpe_cache_probe_median_is_overflow_safe() {
    median_is_overflow_safe_case();
}

#[test]
fn legacy_bpe_lut_width_probe_median_is_overflow_safe() {
    median_is_overflow_safe_case();
}

#[test]
fn legacy_bpe_packed_map_probe_median_is_overflow_safe() {
    median_is_overflow_safe_case();
}

#[test]
fn tokenizer_csr_rule_probe_median_is_overflow_safe() {
    median_is_overflow_safe_case();
}

#[test]
fn tokenizer_csr_soa_probe_median_is_overflow_safe() {
    median_is_overflow_safe_case();
}

#[test]
fn tokenizer_pair_count_probe_median_is_overflow_safe() {
    median_is_overflow_safe_case();
}

#[test]
fn tokenizer_rule_table_probe_median_is_overflow_safe() {
    median_is_overflow_safe_case();
}

#[test]
fn tokenizer_text_encode_probe_median_is_overflow_safe() {
    median_is_overflow_safe_case();
}

#[test]
fn integer_median_is_overflow_safe() {
    median_is_overflow_safe_case();
}

#[test]
fn median_sorts_unordered_samples_and_rejects_empty_input() {
    assert_eq!(median(&[]), None);
    assert_eq!(median(&[30, 10, 20]), Some(20));
    assert_eq!(median(&[40, 10, 30, 20]), Some(25));
    assert_eq!(median(&[3, 4]), Some(3));
}

#[test]
fn legacy_bpe_lut_width_probe_compact_lut_is_half_width_on_64_bit_hosts() {
    assert_eq!(std::mem::size_of::<[u32; 256]>(), 1024);
    if usize::BITS == 64 {
        assert_eq!(std::mem::size_of::<[usize; 256]>(), 2048);
    }
}

#[test]
fn probe_lengths_are_sorted_and_deduplicated() {
    assert_eq!(parse_probe_lengths("64,8,32,32,16").unwrap(), vec![8, 16, 32, 64]);
}

#[test]
fn zero_probe_length_is_rejected() {
    assert!(parse_probe_lengths("8,0,16").is_err());
}

#[test]
fn probe_length_lists_trim_and_skip_empty_fields() {
    assert_eq!(parse_probe_lengths(" 16 ,, 8,\t+4 ,").unwrap(), vec![4, 8, 16]);
    assert_eq!(parse_probe_lengths("8,x1,0").unwrap_err(), "invalid probe length `x1`");
    assert_eq!(parse_probe_lengths("8,0").unwrap_err(), "probe lengths must be greater than zero");
    assert_eq!(parse_probe_lengths("").unwrap(), Vec::<usize>::new());
}

#[test]
fn byte_unit_map_is_injective_for_all_bytes() {
    let mut chars = (0u8..=255).map(byte_to_unit).collect::<Vec<_>>();
    chars.sort_unstable();
    chars.dedup();
    assert_eq!(chars.len(), 256);
}

#[test]
fn lengths_are_sorted_and_deduplicated() {
    assert_eq!(parse_lengths("128,8,16,16").unwrap(), vec![8, 16, 128]);
    assert!(parse_lengths("0").is_err());
}

#[test]
fn lengths_are_sorted_and_bounded() {
    assert_eq!(parse_tiny_lengths("128,8,16,16").unwrap(), vec![8, 16, 128]);
    assert!(parse_tiny_lengths("129").is_err());
    assert!(parse_tiny_lengths("0").is_err());
    assert_eq!(parse_tiny_lengths("129").unwrap_err(), "lengths must be in 1..=128");
    assert_eq!(parse_tiny_lengths("7,y").unwrap_err(), "invalid length `y`");
}

#[test]
fn tokenizer_ingress_width_probe_compact_lut_is_half_width_on_64_bit_hosts() {
    assert_eq!(std::mem::size_of::<[u32; 256]>(), 1024);
    if usize::BITS == 64 {
        assert_eq!(std::mem::size_of::<[usize; 256]>(), 2048);
    }
}

#[test]
fn line_ranges_are_validated() {
    assert_eq!(parse_line_range("4-9"), Ok((4, 9)));
    assert_eq!(parse_line_range("4"), Ok((4, 34)));
    assert!(parse_line_range("0-2").is_err());
    assert!(parse_line_range("9-4").is_err());
    assert!(parse_line_range("bad").is_err());
    assert!(parse_line_range("1-2-3").is_err());
}

#[test]
fn line_range_errors_name_the_problem() {
    assert_eq!(parse_line_range("-3"), Err("expected START-END with two positive line numbers"));
    assert_eq!(parse_line_range("x-3"), Err("START is not a positive line number"));
    assert_eq!(parse_line_range("3-x"), Err("END is not a positive line number"));
    assert_eq!(parse_line_range("0"), Err("line numbers are one-based and must be greater than zero"));
    assert_eq!(parse_line_range("9-4"), Err("END must be greater than or equal to START"));
    assert_eq!(parse_line_range(&usize::MAX.to_string()), Err("line range overflows this platform"));
}

#[test]
fn stable_kernel_names_roundtrip() {
    for kernel in [BpeKernel::Reference, BpeKernel::TinyScan, BpeKernel::Indexed, BpeKernel::Heap] {
        assert_eq!(parse_kernel(kernel_name(kernel)).ok(), Some(kernel));
    }
}

fn ingress_luts() -> ByteLuts {
    let mut wide = [0usize; 256];
    let mut compact = [0u32; 256];
    for index in 0..256 {
        wide[index] = index + 4;
        compact[index] = u32::try_from(index + 4).unwrap();
    }
    ByteLuts { wide, compact }
}

#[test]
fn direct_ingress_matches_current_ids() {
    let luts = ingress_luts();
    for len in [1usize, 8, 16, 64, 128] {
        let bytes = (0..len).map(|index| u8::try_from(index).unwrap()).collect::<Vec<_>>();
        assert!(same_ingress_ids(&luts, &bytes));
        let (current, current_len) = current_ingress(&luts, &bytes);
        let (direct, direct_len) = direct_ingress(&luts, &bytes);
        assert_eq!(current_len, direct_len);
        assert_eq!(&current[..current_len], &direct[..direct_len]);
        assert_eq!(direct[0], 4);
        assert_eq!(direct[len - 1], u32::try_from(len - 1 + 4).unwrap());
    }
}

#[test]
fn ingress_paths_differ_when_tables_disagree() {
    let mut luts = ingress_luts();
    luts.compact[5] = 99;
    assert!(!same_ingress_ids(&luts, &[1, 5]));
    assert!(same_ingress_ids(&luts, &[1, 6]));
}
