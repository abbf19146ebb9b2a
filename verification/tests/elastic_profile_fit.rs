use scirust_sciagent::elastic_calibration::CalibrationMeasurement;
use scirust_sciagent::elastic_profile_fit::{
    group_valid_timings, CostRow, ElasticProfileFitter, ProfileFitError, RobustTimingCost,
    PROFILE_CLASSES,
};
use scirust_sciagent::elastic_tokenizer::{BpeKernel, ElasticProfile};

const PROFILE_KERNELS: [BpeKernel; 4] =
    [BpeKernel::Reference, BpeKernel::TinyScan, BpeKernel::Indexed, BpeKernel::Heap];

fn m(piece_len: usize, kernel: BpeKernel, elapsed_nanos: u64, semantic_match: bool) -> CalibrationMeasurement {
    CalibrationMeasurement { piece_len, kernel, elapsed_nanos, semantic_match }
}

/// Robust cost of a single kept sample: its median and p95 are the sample itself.
fn single_sample_rows(measurements: &[CalibrationMeasurement]) -> Result<(Vec<usize>, Vec<CostRow>), ProfileFitError> {
    let grouped = group_valid_timings(measurements)?;
    let mut rows = Vec::new();
    for per_kernel in &grouped.samples {
        let mut row: CostRow = [None; 4];
        for (k, samples) in per_kernel.iter().enumerate() {
            assert!(samples.len() <= 1, "these scenarios keep at most one sample per pair");
            row[k] = samples.first().map(|&v| RobustTimingCost { median_nanos: v, p95_nanos: v });
        }
        rows.push(row);
    }
    Ok((grouped.lengths, rows))
}

fn fit_single_samples(measurements: &[CalibrationMeasurement]) -> Result<ElasticProfile, ProfileFitError> {
    let (lengths, rows) = single_sample_rows(measurements)?;
    ElasticProfileFitter::fit_robust_costs(&lengths, &rows)
}

fn cost(median_nanos: u64, p95_nanos: u64) -> Option<RobustTimingCost> {
    Some(RobustTimingCost { median_nanos, p95_nanos })
}

#[test]
fn six_probe_lengths_map_directly_to_six_execution_classes() {
    let lengths = [8, 32, 128, 512, 2048, 8192];
    let winners = [
        BpeKernel::TinyScan,
        BpeKernel::TinyScan,
        BpeKernel::Indexed,
        BpeKernel::Indexed,
        BpeKernel::Heap,
        BpeKernel::Heap,
    ];
    let mut measurements = Vec::new();
    for (&piece_len, &winner) in lengths.iter().zip(winners.iter()) {
        for kernel in PROFILE_KERNELS {
            measurements.push(m(piece_len, kernel, if kernel == winner { 10 } else { 100 }, true));
        }
    }

    let profile = fit_single_samples(&measurements).unwrap();
    assert_eq!(profile.kernels(), winners);
    assert_eq!(profile.thresholds().s_max, 20);
    assert_eq!(profile.thresholds().m_max, 80);
    assert_eq!(profile.thresholds().l_max, 320);
    assert_eq!(profile.thresholds().xl_max, 1280);
    assert_eq!(profile.thresholds().xxl_max, 5120);
}

#[test]
fn semantic_mismatch_disqualifies_otherwise_fast_kernel() {
    let lengths = [8, 16, 32, 64, 128, 256];
    let mut measurements = Vec::new();
    for piece_len in lengths {
        measurements.push(m(piece_len, BpeKernel::Reference, 100, true));
        measurements.push(m(piece_len, BpeKernel::Indexed, 10, true));
    }
    measurements.push(m(64, BpeKernel::Indexed, 1, false));

    let profile = fit_single_samples(&measurements).unwrap();
    assert_eq!(profile.kernel_for(64), BpeKernel::Reference);
}

#[test]
fn fitter_rejects_too_few_distinct_probe_lengths() {
    let measurements = [m(8, BpeKernel::Reference, 1, true)];
    assert_eq!(
        fit_single_samples(&measurements),
        Err(ProfileFitError::NotEnoughProbeLengths { found: 1 })
    );
}

#[test]
fn grouping_rejects_empty_measurements() {
    assert!(matches!(group_valid_timings(&[]), Err(ProfileFitError::NoMeasurements)));
}

#[test]
fn grouping_sorts_lengths_and_keeps_samples_in_input_order() {
    let measurements = [
        m(64, BpeKernel::Heap, 30, true),
        m(8, BpeKernel::Reference, 5, true),
        m(64, BpeKernel::Heap, 10, true),
        m(64, BpeKernel::Indexed, 7, true),
        m(64, BpeKernel::Indexed, 2, false),
        m(8, BpeKernel::TinyScan, 1, false),
    ];
    let grouped = group_valid_timings(&measurements).unwrap();
    assert_eq!(grouped.lengths, vec![8, 64]);
    assert_eq!(grouped.samples[0], vec![vec![5], vec![], vec![], vec![]]);
    assert_eq!(grouped.samples[1], vec![vec![], vec![], vec![], vec![30, 10]]);
}

#[test]
fn infeasible_partition_is_reported() {
    let lengths = [1, 2, 3, 4, 5, 6];
    let mut rows: Vec<CostRow> = vec![[cost(1, 1), None, None, None]; PROFILE_CLASSES];
    rows[3] = [None; 4];
    assert_eq!(
        ElasticProfileFitter::fit_robust_costs(&lengths, &rows),
        Err(ProfileFitError::NoFeasibleSixClassProfile)
    );
}

#[test]
fn p95_sum_breaks_median_ties_and_segments_may_span_lengths() {
    // Seven lengths, six classes: one class must span two lengths.
    let lengths = [10, 20, 30, 40, 50, 60, 70];
    let rows: Vec<CostRow> = vec![
        [cost(5, 9), cost(5, 6), None, None],
        [cost(5, 9), cost(5, 6), None, None],
        [cost(5, 5), None, None, None],
        [cost(5, 5), None, None, None],
        [cost(5, 5), None, None, None],
        [cost(5, 5), None, None, None],
        [cost(5, 5), None, None, None],
    ];
    let profile = ElasticProfileFitter::fit_robust_costs(&lengths, &rows).unwrap();
    assert_eq!(
        profile.kernels(),
        [
            BpeKernel::TinyScan,
            BpeKernel::TinyScan,
            BpeKernel::Reference,
            BpeKernel::Reference,
            BpeKernel::Reference,
            BpeKernel::Reference
        ]
    );
    assert_eq!(profile.thresholds().s_max, 15);
    assert_eq!(profile.thresholds().m_max, 25);
    assert_eq!(profile.thresholds().l_max, 35);
    assert_eq!(profile.thresholds().xl_max, 45);
    assert_eq!(profile.thresholds().xxl_max, 55);
}

#[test]
fn thresholds_are_floor_midpoints_between_classes() {
    let lengths = [1, 4, 9, 16, 25, 36];
    let rows: Vec<CostRow> = vec![[cost(1, 1), None, None, None]; 6];
    let profile = ElasticProfileFitter::fit_robust_costs(&lengths, &rows).unwrap();
    assert_eq!(profile.thresholds().s_max, 2);
    assert_eq!(profile.thresholds().m_max, 6);
    assert_eq!(profile.thresholds().l_max, 12);
    assert_eq!(profile.thresholds().xl_max, 20);
    assert_eq!(profile.thresholds().xxl_max, 30);
    assert_eq!(profile.kernels(), [BpeKernel::Reference; 6]);
}

#[test]
fn equally_cheap_partitions_start_the_last_class_earliest_with_the_first_kernel() {
    let lengths = vec![1usize, 2, 4, 8, 16, 32, 64];
    let rows: Vec<CostRow> = lengths.iter().map(|_| [cost(1, 1); 4]).collect();
    let profile = ElasticProfileFitter::fit_robust_costs(&lengths, &rows).unwrap();
    assert_eq!(profile.kernels(), [BpeKernel::Reference; PROFILE_CLASSES]);
    let t = profile.thresholds();
    assert_eq!((t.s_max, t.m_max, t.l_max, t.xl_max, t.xxl_max), (1, 3, 6, 12, 24));
}
