use scirust_sciagent::elastic_autotune::{
    AutotuneConfig, AutotuneError, CalibrationCase, ElasticAutotuner,
};
use scirust_sciagent::elastic_calibration::{
    integer_median, kernel_order, CalibrationError, CalibrationMeasurement, CalibrationReport,
    CalibrationWinner,
};
use scirust_sciagent::elastic_mla_plan::{
    require_rope_dimensions, ElasticMlaPlanError, RopePairSelection,
};
use scirust_sciagent::elastic_tiny::TINY_SCAN_CAPACITY;
use scirust_sciagent::elastic_tokenizer::BpeKernel;

fn m(piece_len: usize, kernel: BpeKernel, elapsed_nanos: u64, semantic_match: bool) -> CalibrationMeasurement {
    CalibrationMeasurement { piece_len, kernel, elapsed_nanos, semantic_match }
}

#[test]
fn calibration_selects_median_fastest_kernel_per_length() {
    let report = CalibrationReport::from_measurements(&[
        m(32, BpeKernel::Reference, 120, true),
        m(32, BpeKernel::Reference, 100, true),
        m(32, BpeKernel::Reference, 110, true),
        m(32, BpeKernel::TinyScan, 70, true),
        m(32, BpeKernel::TinyScan, 80, true),
        m(32, BpeKernel::TinyScan, 75, true),
        m(512, BpeKernel::Reference, 900, true),
        m(512, BpeKernel::Heap, 300, true),
    ])
    .unwrap();
    assert_eq!(
        report.winners(),
        &[
            CalibrationWinner { piece_len: 32, kernel: BpeKernel::TinyScan, median_nanos: 75 },
            CalibrationWinner { piece_len: 512, kernel: BpeKernel::Heap, median_nanos: 300 },
        ]
    );
}

#[test]
fn faster_semantic_mismatch_can_never_win() {
    let report = CalibrationReport::from_measurements(&[
        m(64, BpeKernel::Reference, 100, true),
        m(64, BpeKernel::TinyScan, 1, false),
    ])
    .unwrap();
    assert_eq!(report.winners()[0].kernel, BpeKernel::Reference);
    assert_eq!(report.rejected_semantic_measurements(), 1);
}

#[test]
fn calibration_fails_if_length_has_no_valid_kernel() {
    let err = CalibrationReport::from_measurements(&[
        m(16, BpeKernel::Reference, 100, true),
        m(32, BpeKernel::TinyScan, 10, false),
    ])
    .unwrap_err();
    assert_eq!(err, CalibrationError::NoSemanticallyValidKernel { piece_len: 32 });
}

#[test]
fn calibration_tie_break_is_stable() {
    let report = CalibrationReport::from_measurements(&[
        m(32, BpeKernel::TinyScan, 50, true),
        m(32, BpeKernel::Reference, 50, true),
    ])
    .unwrap();
    assert_eq!(report.winners()[0].kernel, BpeKernel::Reference);
}

#[test]
fn integer_median_handles_even_sample_count_without_overflow() {
    assert_eq!(integer_median(&[10, 20]), 15);
    assert_eq!(integer_median(&[u64::MAX - 1, u64::MAX]), u64::MAX - 1);
}

#[test]
fn calibration_without_measurements_is_rejected() {
    assert_eq!(CalibrationReport::from_measurements(&[]).unwrap_err(), CalibrationError::NoMeasurements);
}

#[test]
fn calibration_reports_smallest_length_without_valid_kernel() {
    let err = CalibrationReport::from_measurements(&[
        m(64, BpeKernel::Reference, 5, false),
        m(8, BpeKernel::Reference, 5, true),
        m(32, BpeKernel::Heap, 5, false),
    ])
    .unwrap_err();
    assert_eq!(err, CalibrationError::NoSemanticallyValidKernel { piece_len: 32 });
}

#[test]
fn calibration_uses_unsorted_samples_median() {
    let report = CalibrationReport::from_measurements(&[
        m(8, BpeKernel::Indexed, 9, true),
        m(8, BpeKernel::Indexed, 1, true),
        m(8, BpeKernel::Indexed, 5, true),
        m(8, BpeKernel::Indexed, 7, true),
        m(8, BpeKernel::Heap, 6, true),
    ])
    .unwrap();
    assert_eq!(
        report.winners(),
        &[CalibrationWinner { piece_len: 8, kernel: BpeKernel::Indexed, median_nanos: 6 }]
    );
    assert_eq!(report.rejected_semantic_measurements(), 0);
}

#[test]
fn kernel_order_is_stable() {
    assert_eq!(kernel_order(BpeKernel::Reference), 0);
    assert_eq!(kernel_order(BpeKernel::TinyScan), 1);
    assert_eq!(kernel_order(BpeKernel::Indexed), 2);
    assert_eq!(kernel_order(BpeKernel::Heap), 3);
}

#[test]
fn integer_median_of_odd_count_is_middle() {
    assert_eq!(integer_median(&[1, 4, 9]), 4);
    assert_eq!(integer_median(&[7]), 7);
    assert_eq!(integer_median(&[2, 3]), 2);
}

// ---- autotune ----

#[test]
fn autotune_config_rejects_zero_measured_runs() {
    assert_eq!(AutotuneConfig::new(1, 0), Err(AutotuneError::ZeroMeasuredRuns));
}

#[test]
fn autotune_requires_at_least_one_case() {
    let tuner =
        ElasticAutotuner::from_ordered_merges(&[(1, 1, 2)], AutotuneConfig::new(0, 1).unwrap()).unwrap();
    assert!(matches!(tuner.calibrate(&[]), Err(AutotuneError::NoCases)));
}

#[test]
fn autotune_measures_every_compatible_kernel_and_preserves_semantics() {
    let tuner = ElasticAutotuner::from_ordered_merges(
        &[(2, 3, 10), (1, 2, 11), (1, 10, 12)],
        AutotuneConfig::new(0, 2).unwrap(),
    )
    .unwrap();
    let cases = [
        CalibrationCase::new(32, vec![1, 2, 3]),
        CalibrationCase::new(512, vec![1; TINY_SCAN_CAPACITY + 1]),
    ];
    let result = tuner.calibrate(&cases).unwrap();
    assert_eq!(result.measurements().len(), 14);
    assert!(result.measurements().iter().all(|m| m.semantic_match));
    assert_eq!(result.report().winners().len(), 2);
    assert_eq!(result.report().rejected_semantic_measurements(), 0);
}

#[test]
fn autotune_default_config_is_two_warmups_and_seven_runs() {
    let config = AutotuneConfig::default();
    assert_eq!(config, AutotuneConfig { warmup_runs: 2, measured_runs: 7 });
    assert_eq!(AutotuneConfig::new(3, 4).unwrap(), AutotuneConfig { warmup_runs: 3, measured_runs: 4 });
}

#[test]
fn autotune_without_measured_runs_reports_no_measurements() {
    let tuner = ElasticAutotuner::from_ordered_merges(
        &[(1, 1, 2)],
        AutotuneConfig { warmup_runs: 1, measured_runs: 0 },
    )
    .unwrap();
    let err = tuner.calibrate(&[CalibrationCase::new(4, vec![1, 1])]).err().unwrap();
    assert_eq!(err, AutotuneError::Calibration(CalibrationError::NoMeasurements));
}

#[test]
fn autotune_measurement_order_follows_cases_then_kernels() {
    let tuner = ElasticAutotuner::from_ordered_merges(&[(1, 1, 2)], AutotuneConfig::new(0, 1).unwrap())
        .unwrap();
    let result = tuner
        .calibrate(&[CalibrationCase::new(8, vec![1, 1]), CalibrationCase::new(4, vec![1])])
        .unwrap();
    let shape = result.measurements().iter().map(|m| (m.piece_len, m.kernel)).collect::<Vec<_>>();
    assert_eq!(
        shape,
        vec![
            (8, BpeKernel::Reference),
            (8, BpeKernel::TinyScan),
            (8, BpeKernel::Indexed),
            (8, BpeKernel::Heap),
            (4, BpeKernel::Reference),
            (4, BpeKernel::TinyScan),
            (4, BpeKernel::Indexed),
            (4, BpeKernel::Heap),
        ]
    );
    let lengths = result.report().winners().iter().map(|w| w.piece_len).collect::<Vec<_>>();
    assert_eq!(lengths, vec![4, 8]);
}

#[test]
fn autotune_rejects_duplicate_rules() {
    let err = ElasticAutotuner::from_ordered_merges(&[(1, 1, 2), (1, 1, 3)], AutotuneConfig::default())
        .err()
        .unwrap();
    assert_eq!(err.left, 1);
    assert_eq!(err.right, 1);
}

// ---- RoPE pair selection ----

#[test]
fn explicit_pair_selection_preserves_native_pair_indices() {
    let selection = RopePairSelection::new(16, vec![0, 3, 7]).unwrap();
    assert_eq!(selection.rope_channels(), &[0, 1, 6, 7, 14, 15]);
    assert_eq!(selection.nope_channels(), &[2, 3, 4, 5, 8, 9, 10, 11, 12, 13]);
}

#[test]
fn high_and_low_frequency_selectors_are_deterministic() {
    assert_eq!(RopePairSelection::high_frequency_prefix(16, 4).unwrap().pair_indices(), &[0, 1]);
    assert_eq!(RopePairSelection::low_frequency_suffix(16, 4).unwrap().pair_indices(), &[6, 7]);
}

#[test]
fn rope_selection_rejects_invalid_inputs() {
    assert!(matches!(RopePairSelection::new(0, vec![]), Err(ElasticMlaPlanError::InvalidTopology(_))));
    assert!(matches!(RopePairSelection::new(7, vec![]), Err(ElasticMlaPlanError::InvalidTopology(_))));
    assert_eq!(
        RopePairSelection::new(8, vec![1, 4]),
        Err(ElasticMlaPlanError::RopePairOutOfRange { pair: 4, pair_count: 4 })
    );
    assert_eq!(
        RopePairSelection::new(8, vec![2, 2]),
        Err(ElasticMlaPlanError::RopePairsNotStrictlyIncreasing)
    );
    assert_eq!(
        RopePairSelection::new(8, vec![3, 1, 9]),
        Err(ElasticMlaPlanError::RopePairsNotStrictlyIncreasing)
    );
    assert_eq!(
        require_rope_dimensions(16, 16),
        Err(ElasticMlaPlanError::InvalidRopeDimension { rope_dimensions: 16, d_head: 16 })
    );
    assert_eq!(require_rope_dimensions(16, 3).is_err(), true);
    assert_eq!(require_rope_dimensions(16, 14), Ok(()));
}

#[test]
fn rope_selection_dimensions_partition_the_head() {
    let selection = RopePairSelection::low_frequency_suffix(12, 4).unwrap();
    assert_eq!(selection.d_head(), 12);
    assert_eq!(selection.pair_indices(), &[4, 5]);
    assert_eq!(selection.rope_channels(), &[8, 9, 10, 11]);
    assert_eq!(selection.nope_channels(), &[0, 1, 2, 3, 4, 5, 6, 7]);
    assert_eq!(selection.rope_dimensions() + selection.nope_dimensions(), 12);
    let none = RopePairSelection::new(6, vec![]).unwrap();
    assert_eq!(none.rope_dimensions(), 0);
    assert_eq!(none.nope_channels(), &[0, 1, 2, 3, 4, 5]);
}

#[test]
fn rope_and_nope_channels_partition_the_head() {
    let selection = RopePairSelection::new(8, vec![1]).unwrap();
    assert_eq!(selection.rope_channels(), &[2, 3]);
    assert_eq!(selection.nope_channels(), &[0, 1, 4, 5, 6, 7]);
    assert_eq!(selection.rope_dimensions(), 2);
    assert_eq!(selection.nope_dimensions(), 6);
    assert_eq!(selection.rope_dimensions() + selection.nope_dimensions(), 8);
}

#[test]
fn calibration_report_rebuilds_from_its_measurements() {
    let tuner = ElasticAutotuner::from_ordered_merges(
        &[(2, 3, 10), (1, 2, 11)],
        AutotuneConfig::new(0, 3).unwrap(),
    )
    .unwrap();
    let cases = [CalibrationCase::new(4, vec![1, 2, 3]), CalibrationCase::new(16, vec![2, 3, 2, 3])];
    let result = tuner.calibrate(&cases).unwrap();
    let rebuilt = CalibrationReport::from_measurements(result.measurements()).unwrap();
    assert_eq!(&rebuilt, result.report());
}
