//! Runtime timing harness for ElasticTokenizer auto-calibration.
//!
//! The harness measures complete pre-tokenized pieces on every compatible
//! kernel, compares every measured output to the canonical oracle, and only
//! then hands integer nanosecond samples to [`CalibrationReport`]. It never
//! invents chunk boundaries and never treats a faster semantic mismatch as a
//! valid optimization.

use std::time::Instant;

use vstd::prelude::*;

use crate::bpe_semantics::{
    MergeTriple, TokenId, first_repeated_pair, lemma_first_repeated_pair,
};
use crate::elastic_calibration::{
    CalibrationError, CalibrationMeasurement, CalibrationReport, lemma_report_outcome_unique,
    report_outcome,
};
use crate::elastic_heap::HeapBpe;
use crate::elastic_indexed::IndexedBpe;
use crate::elastic_tiny::{TINY_SCAN_CAPACITY, TinyScanBpe};
use crate::elastic_tokenizer::{BpeKernel, CanonicalBpeOracle, DuplicateMergeRule};

verus! {

#[verifier::external_type_specification]
#[verifier::external_body]
pub struct ExInstant(Instant);

/// Reads the monotonic clock with `std::time::Instant::now`. Nothing is
/// stated of the reading: it depends on the time of the call.
#[verifier::external_body]
fn clock_now() -> Instant {
    Instant::now()
}

/// Nanoseconds elapsed since `start`, from `Instant::elapsed` and
/// `Duration::as_nanos`, saturated to `u64::MAX`. Nothing is stated of the
/// value: it depends on the clock.
#[verifier::external_body]
fn elapsed_nanos_since(start: &Instant) -> u64 {
    u64::try_from(start.elapsed().as_nanos()).unwrap_or(u64::MAX)
}

/// Passes a value through `std::hint::black_box`, which returns its argument
/// unchanged and only keeps the optimizer from eliding the measured work.
#[verifier::external_body]
fn opaque<T>(value: T) -> (same: T)
    ensures
        same == value,
{
    std::hint::black_box(value)
}

/// One representative complete BPE piece used during auto-calibration.
#[derive(Clone, Debug, PartialEq, Eq)]
pub struct CalibrationCase {
    /// Original byte length used by the ElasticTokenizer router.
    pub piece_len: usize,
    /// Already pre-tokenized base ids for the complete piece.
    pub input_ids: Vec<TokenId>,
}

impl CalibrationCase {
    pub fn new(piece_len: usize, input_ids: Vec<TokenId>) -> (case: Self)
        ensures
            case.piece_len == piece_len,
            case.input_ids@ == input_ids@,
    {
        CalibrationCase { piece_len, input_ids }
    }
}

/// Warm-up and measured repetition counts for one calibration session.
#[derive(Clone, Copy, Debug, PartialEq, Eq, Structural)]
pub struct AutotuneConfig {
    pub warmup_runs: usize,
    pub measured_runs: usize,
}

/// Auto-calibration cannot produce a safe report from the supplied inputs.
#[derive(Clone, Copy, Debug, PartialEq, Eq, Structural)]
pub enum AutotuneError {
    ZeroMeasuredRuns,
    NoCases,
    Calibration(CalibrationError),
}

impl AutotuneConfig {
    pub fn new(warmup_runs: usize, measured_runs: usize) -> (result: Result<Self, AutotuneError>)
        ensures
            match result {
                Ok(c) => measured_runs > 0 && c == (AutotuneConfig { warmup_runs, measured_runs }),
                Err(e) => measured_runs == 0 && e == AutotuneError::ZeroMeasuredRuns,
            },
    {
        if measured_runs == 0 {
            return Err(AutotuneError::ZeroMeasuredRuns);
        }
        Ok(AutotuneConfig { warmup_runs, measured_runs })
    }
}

impl Default for AutotuneConfig {
    fn default() -> (c: Self)
        ensures
            c == (AutotuneConfig { warmup_runs: 2, measured_runs: 7 }),
    {
        AutotuneConfig { warmup_runs: 2, measured_runs: 7 }
    }
}

/// Whether `kernel` can run a piece of `input_len` ids: only the tiny kernel
/// has a capacity.
pub open spec fn kernel_runs(kernel: BpeKernel, input_len: nat) -> bool {
    kernel != BpeKernel::TinyScan || input_len <= TINY_SCAN_CAPACITY
}

/// The `(piece_len, kernel)` of the measurements one kernel contributes.
pub open spec fn kernel_block(piece_len: usize, kernel: BpeKernel, input_len: nat, runs: nat) -> Seq<
    (usize, BpeKernel),
> {
    if kernel_runs(kernel, input_len) {
        Seq::new(runs, |i: int| (piece_len, kernel))
    } else {
        Seq::empty()
    }
}

/// The kernel at calibration position `i`.
pub open spec fn calibration_kernel(i: int) -> BpeKernel {
    if i == 0 {
        BpeKernel::Reference
    } else if i == 1 {
        BpeKernel::TinyScan
    } else if i == 2 {
        BpeKernel::Indexed
    } else {
        BpeKernel::Heap
    }
}

/// The `(piece_len, kernel)` of the measurements of the first `k` kernels on
/// one case.
pub open spec fn case_prefix_shape(case: CalibrationCase, k: int, runs: nat) -> Seq<(usize, BpeKernel)>
    decreases k,
{
    if k <= 0 {
        Seq::empty()
    } else {
        case_prefix_shape(case, k - 1, runs) + kernel_block(
            case.piece_len,
            calibration_kernel(k - 1),
            case.input_ids@.len(),
            runs,
        )
    }
}

/// The `(piece_len, kernel)` of every measurement of a session, in order:
/// cases in order, kernels in calibration order, `runs` repetitions each.
pub open spec fn session_shape(cases: Seq<CalibrationCase>, runs: nat) -> Seq<(usize, BpeKernel)>
    decreases cases.len(),
{
    if cases.len() == 0 {
        Seq::empty()
    } else {
        session_shape(cases.drop_last(), runs) + case_prefix_shape(cases.last(), 4, runs)
    }
}

/// The `(piece_len, kernel)` of measurements.
pub open spec fn shape_of(ms: Seq<CalibrationMeasurement>) -> Seq<(usize, BpeKernel)> {
    ms.map_values(|m: CalibrationMeasurement| (m.piece_len, m.kernel))
}

/// Every case is short enough for the stated kernel results.
pub open spec fn cases_in_domain(cases: Seq<CalibrationCase>) -> bool {
    forall|i: int| 0 <= i < cases.len() ==> (#[trigger] cases[i]).input_ids@.len() <= u32::MAX
}

/// Full output of one hardware-local calibration session.
#[derive(Clone, Debug, PartialEq, Eq)]
pub struct AutotuneResult {
    measurements: Vec<CalibrationMeasurement>,
    report: CalibrationReport,
}

impl AutotuneResult {
    pub closed spec fn spec_measurements(&self) -> Seq<CalibrationMeasurement> {
        self.measurements@
    }

    pub closed spec fn spec_report(&self) -> CalibrationReport {
        self.report
    }

    pub fn measurements(&self) -> (m: &[CalibrationMeasurement])
        ensures
            m@ == self.spec_measurements(),
    {
        self.measurements.as_slice()
    }

    pub fn report(&self) -> (r: &CalibrationReport)
        ensures
            *r == self.spec_report(),
    {
        &self.report
    }
}

/// Element-wise equality of two id lists.
fn same_ids(a: &Vec<TokenId>, b: &Vec<TokenId>) -> (same: bool)
    ensures
        same == (a@ == b@),
{
    if a.len() != b.len() {
        return false;
    }
    let mut i: usize = 0;
    while i < a.len()
        invariant
            a.len() == b.len(),
            i <= a.len(),
            forall|j: int| 0 <= j < i ==> a@[j] == b@[j],
        decreases a.len() - i,
    {
        if a[i] != b[i] {
            return false;
        }
        i = i + 1;
    }
    assert(a@ =~= b@);
    true
}

/// Runtime auto-calibrator backed by the same four semantic kernels as the
/// production elastic router.
#[derive(Clone)]
pub struct ElasticAutotuner {
    reference: CanonicalBpeOracle,
    tiny_scan: TinyScanBpe,
    indexed: IndexedBpe,
    heap: HeapBpe,
    config: AutotuneConfig,
}

impl ElasticAutotuner {
    /// All kernels hold the same rules.
    pub closed spec fn well_formed(&self) -> bool {
        &&& self.tiny_scan.well_formed()
        &&& self.indexed.well_formed()
        &&& self.tiny_scan.rules() == self.reference.rules()
        &&& self.indexed.rules() == self.reference.rules()
        &&& self.heap.rules() == self.reference.rules()
    }

    pub closed spec fn spec_config(&self) -> AutotuneConfig {
        self.config
    }

    /// Builds every kernel from the same ordered merges; the first rule whose
    /// pair already occurred is reported.
    pub fn from_ordered_merges(merges: &[MergeTriple], config: AutotuneConfig) -> (result: Result<
        Self,
        DuplicateMergeRule,
    >)
        ensures
            match result {
                Ok(t) => first_repeated_pair(merges@) is None && t.well_formed() && t.spec_config()
                    == config,
                Err(e) => first_repeated_pair(merges@) == Some((e.left, e.right)),
            },
    {
        proof {
            lemma_first_repeated_pair(merges@);
        }
        let reference = CanonicalBpeOracle::from_ordered_merges(merges)?;
        let tiny_scan = match TinyScanBpe::from_ordered_merges(merges) {
            Ok(t) => t,
            Err(e) => return Err(e),
        };
        let indexed = match IndexedBpe::from_ordered_merges(merges) {
            Ok(t) => t,
            Err(e) => return Err(e),
        };
        let heap = HeapBpe::from_ordered_merges(merges)?;
        Ok(ElasticAutotuner { reference, tiny_scan, indexed, heap, config })
    }

    fn run_kernel(&self, kernel: BpeKernel, input: &[TokenId]) -> (output: Option<Vec<TokenId>>)
        requires
            self.well_formed(),
        ensures
            output is Some <==> kernel_runs(kernel, input@.len()),
            input@.len() <= u32::MAX ==> (output matches Some(ids) ==> ids@
                == crate::bpe_semantics::canonical_encode(self.reference.rules(), input@)),
    {
        match kernel {
            BpeKernel::Reference => Some(self.reference.encode_ids(input)),
            BpeKernel::TinyScan => self.tiny_scan.try_encode_ids(input),
            BpeKernel::Indexed => Some(self.indexed.encode_ids(input)),
            BpeKernel::Heap => Some(self.heap.encode_ids(input)),
        }
    }

    /// Warm-up and measured runs of one kernel on one case.
    fn measure_kernel(
        &self,
        kernel: BpeKernel,
        case: &CalibrationCase,
        expected: &Vec<TokenId>,
        measurements: &mut Vec<CalibrationMeasurement>,
    )
        requires
            self.well_formed(),
            case.input_ids@.len() <= u32::MAX ==> expected@
                == crate::bpe_semantics::canonical_encode(
                self.reference.rules(),
                case.input_ids@,
            ),
        ensures
            shape_of(final(measurements)@) == shape_of(old(measurements)@) + kernel_block(
                case.piece_len,
                kernel,
                case.input_ids@.len(),
                self.config.measured_runs as nat,
            ),
            forall|i: int|
                0 <= i < old(measurements)@.len() ==> final(measurements)@[i]
                    == old(measurements)@[i],
            case.input_ids@.len() <= u32::MAX ==> forall|i: int|
                old(measurements)@.len() <= i < final(measurements)@.len()
                    ==> (#[trigger] final(measurements)@[i]).semantic_match,
    {
        let mut w: usize = 0;
        while w < self.config.warmup_runs
            invariant
                self.well_formed(),
            decreases self.config.warmup_runs - w,
        {
            match self.run_kernel(kernel, opaque(case.input_ids.as_slice())) {
                Some(output) => {
                    opaque(output);
                },
                None => {
                    break ;
                },
            }
            w = w + 1;
        }
        let ghost start = measurements@;
        let runs = self.config.measured_runs;
        let mut r: usize = 0;
        if !kernel_runs_exec(kernel, case.input_ids.len()) {
            assert(shape_of(measurements@) =~= shape_of(start) + kernel_block(
                case.piece_len,
                kernel,
                case.input_ids@.len(),
                runs as nat,
            ));
            return ;
        }
        while r < runs
            invariant
                self.well_formed(),
                runs == self.config.measured_runs,
                r <= runs,
                kernel_runs(kernel, case.input_ids@.len()),
                case.input_ids@.len() <= u32::MAX ==> expected@
                    == crate::bpe_semantics::canonical_encode(
                    self.reference.rules(),
                    case.input_ids@,
                ),
                measurements@.len() == start.len() + r,
                forall|i: int| 0 <= i < start.len() ==> measurements@[i] == start[i],
                forall|i: int|
                    start.len() <= i < measurements@.len() ==> (#[trigger] measurements@[i]).piece_len
                        == case.piece_len && measurements@[i].kernel == kernel && (
                    case.input_ids@.len() <= u32::MAX ==> measurements@[i].semantic_match),
            decreases runs - r,
        {
            let start_time = clock_now();
            let output = self.run_kernel(kernel, opaque(case.input_ids.as_slice())).unwrap();
            let elapsed_nanos = elapsed_nanos_since(&start_time);
            let semantic_match = same_ids(&output, expected);
            let output = opaque(output);
            measurements.push(
                CalibrationMeasurement {
                    piece_len: case.piece_len,
                    kernel,
                    elapsed_nanos,
                    semantic_match,
                },
            );
            r = r + 1;
        }
        proof {
            assert(r == runs);
            assert(shape_of(measurements@) =~= shape_of(start) + kernel_block(
                case.piece_len,
                kernel,
                case.input_ids@.len(),
                runs as nat,
            ));
        }
    }

    /// Measures all compatible kernels and produces a semantics-gated report.
    ///
    /// The measurements follow the cases in order, and for each case the
    /// kernels in calibration order, one per measured run; the tiny kernel is
    /// skipped on pieces beyond its capacity. The timings come from the clock,
    /// so only the report's relation to them is stated.
    pub fn calibrate(&self, cases: &[CalibrationCase]) -> (result: Result<
        AutotuneResult,
        AutotuneError,
    >)
        requires
            self.well_formed(),
        ensures
            match result {
                Err(AutotuneError::NoCases) => cases.len() == 0,
                Err(AutotuneError::ZeroMeasuredRuns) => false,
                Err(AutotuneError::Calibration(CalibrationError::NoMeasurements)) => cases.len() > 0
                    && self.spec_config().measured_runs == 0,
                Err(AutotuneError::Calibration(CalibrationError::NoSemanticallyValidKernel { .. })) => {
                    cases.len() > 0 && !cases_in_domain(cases@)
                },
                Ok(r) => {
                    &&& cases.len() > 0
                    &&& self.spec_config().measured_runs > 0
                    &&& shape_of(r.spec_measurements()) == session_shape(
                        cases@,
                        self.spec_config().measured_runs as nat,
                    )
                    &&& cases_in_domain(cases@) ==> forall|i: int|
                        0 <= i < r.spec_measurements().len() ==> (
                        #[trigger] r.spec_measurements()[i]).semantic_match
                    &&& report_outcome(r.spec_measurements(), Ok(r.spec_report()))
                },
            },
    {
        if cases.len() == 0 {
            return Err(AutotuneError::NoCases);
        }
        let runs = self.config.measured_runs;
        let mut measurements: Vec<CalibrationMeasurement> = Vec::new();
        let mut c: usize = 0;
        assert(cases@.take(0) =~= Seq::<CalibrationCase>::empty());
        assert(shape_of(measurements@) =~= Seq::<(usize, BpeKernel)>::empty());
        while c < cases.len()
            invariant
                self.well_formed(),
                runs == self.config.measured_runs,
                c <= cases.len(),
                shape_of(measurements@) == session_shape(cases@.take(c as int), runs as nat),
                cases_in_domain(cases@) ==> forall|i: int|
                    0 <= i < measurements@.len() ==> (#[trigger] measurements@[i]).semantic_match,
            decreases cases.len() - c,
        {
            let case = &cases[c];
            let expected = self.reference.encode_ids(opaque(case.input_ids.as_slice()));
            let ghost case_start = measurements@;
            let mut k: usize = 0;
            while k < 4
                invariant
                    self.well_formed(),
                    runs == self.config.measured_runs,
                    k <= 4,
                    c < cases.len(),
                    *case == cases@[c as int],
                    expected@ == crate::bpe_semantics::canonical_encode(
                        self.reference.rules(),
                        case.input_ids@,
                    ),
                    shape_of(measurements@) == shape_of(case_start) + case_prefix_shape(
                        *case,
                        k as int,
                        runs as nat,
                    ),
                    forall|i: int| 0 <= i < case_start.len() ==> measurements@[i] == case_start[i],
                    case.input_ids@.len() <= u32::MAX ==> forall|i: int|
                        case_start.len() <= i < measurements@.len() ==> (
                        #[trigger] measurements@[i]).semantic_match,
                    measurements@.len() >= case_start.len(),
                decreases 4 - k,
            {
                let kernel = if k == 0 {
                    BpeKernel::Reference
                } else if k == 1 {
                    BpeKernel::TinyScan
                } else if k == 2 {
                    BpeKernel::Indexed
                } else {
                    BpeKernel::Heap
                };
                assert(kernel == calibration_kernel(k as int));
                let ghost before = measurements@;
                self.measure_kernel(kernel, case, &expected, &mut measurements);
                proof {
                    assert(shape_of(measurements@) =~= shape_of(case_start) + case_prefix_shape(
                        *case,
                        k + 1,
                        runs as nat,
                    ));
                    assert(shape_of(measurements@).len() == measurements@.len());
                    assert(shape_of(before).len() == before.len());
                }
                k = k + 1;
            }
            proof {
                let taken = cases@.take(c + 1);
                assert(taken.drop_last() =~= cases@.take(c as int));
                assert(taken.last() == cases@[c as int]);
                if cases_in_domain(cases@) {
                    assert(cases@[c as int].input_ids@.len() <= u32::MAX);
                    assert forall|i: int| 0 <= i < measurements@.len() implies (
                    #[trigger] measurements@[i]).semantic_match by {
                        if i < case_start.len() {
                            assert(measurements@[i] == case_start[i]);
                        }
                    }
                }
            }
            c = c + 1;
        }
        assert(cases@.take(cases.len() as int) =~= cases@);
        match CalibrationReport::from_measurements(measurements.as_slice()) {
            Ok(report) => {
                proof {
                    lemma_session_shape_len(cases@, runs as nat);
                    assert(shape_of(measurements@).len() == measurements@.len());
                }
                Ok(AutotuneResult { measurements, report })
            },
            Err(e) => {
                proof {
                    lemma_session_shape_len(cases@, runs as nat);
                    assert(shape_of(measurements@).len() == measurements@.len());
                    match e {
                        CalibrationError::NoSemanticallyValidKernel { piece_len } => {
                            if cases_in_domain(cases@) {
                                let i = choose|i: int|
                                    0 <= i < measurements@.len() && (
                                    #[trigger] measurements@[i]).piece_len == piece_len;
                                assert(measurements@[i].semantic_match);
                                assert(crate::elastic_calibration::has_valid_kernel(
                                    measurements@,
                                    piece_len,
                                ));
                            }
                        },
                        CalibrationError::NoMeasurements => {},
                    }
                }
                Err(AutotuneError::Calibration(e))
            },
        }
    }
}

/// Rebuilding the report from a calibration's own measurements gives back the
/// calibration's report: the same winners and the same rejected count.
pub proof fn lemma_calibration_report_rebuilt(
    calibrated: AutotuneResult,
    rebuilt: Result<CalibrationReport, CalibrationError>,
)
    requires
        report_outcome(calibrated.spec_measurements(), Ok(calibrated.spec_report())),
        report_outcome(calibrated.spec_measurements(), rebuilt),
    ensures
        match rebuilt {
            Ok(report) => report.spec_winners() == calibrated.spec_report().spec_winners()
                && report.spec_rejected() == calibrated.spec_report().spec_rejected(),
            Err(_) => false,
        },
{
    lemma_report_outcome_unique(
        calibrated.spec_measurements(),
        rebuilt,
        Ok(calibrated.spec_report()),
    );
}

fn kernel_runs_exec(kernel: BpeKernel, input_len: usize) -> (runs: bool)
    ensures
        runs == kernel_runs(kernel, input_len as nat),
{
    match kernel {
        BpeKernel::TinyScan => input_len <= TINY_SCAN_CAPACITY,
        _ => true,
    }
}

/// A session is empty exactly when no run is measured (every case runs the
/// reference kernel).
proof fn lemma_session_shape_len(cases: Seq<CalibrationCase>, runs: nat)
    requires
        cases.len() > 0,
    ensures
        session_shape(cases, runs).len() == 0 <==> runs == 0,
    decreases cases.len(),
{
    let last = cases.last();
    assert(case_prefix_shape(last, 0, runs) =~= Seq::empty());
    assert(case_prefix_shape(last, 1, runs) =~= kernel_block(
        last.piece_len,
        BpeKernel::Reference,
        last.input_ids@.len(),
        runs,
    ));
    lemma_case_shape_len(last, 4, runs);
    if cases.len() > 1 {
        lemma_session_shape_len(cases.drop_last(), runs);
    }
}

proof fn lemma_case_shape_len(case: CalibrationCase, k: int, runs: nat)
    requires
        1 <= k,
    ensures
        case_prefix_shape(case, k, runs).len() >= case_prefix_shape(case, 1, runs).len(),
        runs == 0 ==> case_prefix_shape(case, k, runs).len() == 0,
    decreases k,
{
    if k > 1 {
        lemma_case_shape_len(case, k - 1, runs);
        assert(case_prefix_shape(case, k, runs) == case_prefix_shape(case, k - 1, runs)
            + kernel_block(case.piece_len, calibration_kernel(k - 1), case.input_ids@.len(), runs));
    } else {
        assert(case_prefix_shape(case, 0, runs) =~= Seq::empty());
    }
}

} // verus!
