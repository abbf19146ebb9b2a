//! Deterministic selection layer for ElasticTokenizer auto-calibration.
//!
//! Timing collection is intentionally kept outside this module. This layer
//! consumes integer timing samples, rejects measurements whose output did not
//! match the canonical BPE oracle, aggregates repeated runs by median, and
//! deterministically selects the fastest valid kernel at every probed length.

use vstd::prelude::*;
use vstd::relations::{sorted_by, total_ordering};
use vstd::seq_lib::{to_multiset_build, to_multiset_insert, lemma_sorted_unique};

use crate::elastic_tokenizer::BpeKernel;

verus! {

/// One timing observation produced by the calibration harness.
#[derive(Clone, Copy, Debug, PartialEq, Eq, Structural)]
pub struct CalibrationMeasurement {
    pub piece_len: usize,
    pub kernel: BpeKernel,
    pub elapsed_nanos: u64,
    /// Must be true only after exact token-id comparison with the canonical
    /// oracle for the measured input.
    pub semantic_match: bool,
}

/// Fastest semantically valid kernel for one probed piece length.
#[derive(Clone, Copy, Debug, PartialEq, Eq, Structural)]
pub struct CalibrationWinner {
    pub piece_len: usize,
    pub kernel: BpeKernel,
    pub median_nanos: u64,
}

/// Calibration input was insufficient to make a semantics-safe decision.
#[derive(Clone, Copy, Debug, PartialEq, Eq, Structural)]
pub enum CalibrationError {
    NoMeasurements,
    NoSemanticallyValidKernel { piece_len: usize },
}

/// Tie-break position of a kernel: earlier kernels win equal medians.
pub open spec fn kernel_rank(kernel: BpeKernel) -> int {
    match kernel {
        BpeKernel::Reference => 0,
        BpeKernel::TinyScan => 1,
        BpeKernel::Indexed => 2,
        BpeKernel::Heap => 3,
    }
}

/// The kernel at tie-break position `i`.
pub open spec fn kernel_at(i: int) -> BpeKernel {
    if i == 0 {
        BpeKernel::Reference
    } else if i == 1 {
        BpeKernel::TinyScan
    } else if i == 2 {
        BpeKernel::Indexed
    } else {
        BpeKernel::Heap
    }
}

/// Stable tie-break position of a kernel.
pub fn kernel_order(kernel: BpeKernel) -> (order: u8)
    ensures
        order == kernel_rank(kernel),
{
    match kernel {
        BpeKernel::Reference => 0,
        BpeKernel::TinyScan => 1,
        BpeKernel::Indexed => 2,
        BpeKernel::Heap => 3,
    }
}

/// Elapsed times, in input order, of the semantically matching measurements
/// of `kernel` at `piece_len`.
pub open spec fn valid_samples(ms: Seq<CalibrationMeasurement>, piece_len: usize, kernel: BpeKernel) -> Seq<int>
    decreases ms.len(),
{
    if ms.len() == 0 {
        Seq::empty()
    } else {
        let prefix = valid_samples(ms.drop_last(), piece_len, kernel);
        let m = ms.last();
        if m.semantic_match && m.piece_len == piece_len && m.kernel == kernel {
            prefix.push(m.elapsed_nanos as int)
        } else {
            prefix
        }
    }
}

/// Integer median of a sorted sequence: the middle element, or the
/// overflow-safe floor midpoint of the two middle elements.
pub open spec fn median_of_sorted(t: Seq<int>) -> int {
    let mid = t.len() / 2;
    if t.len() % 2 == 1 {
        t[mid as int]
    } else {
        t[mid - 1] + (t[mid as int] - t[mid - 1]) / 2
    }
}

/// Median of the valid samples of `kernel` at `piece_len`.
pub open spec fn sample_median(ms: Seq<CalibrationMeasurement>, piece_len: usize, kernel: BpeKernel) -> int {
    median_of_sorted(valid_samples(ms, piece_len, kernel).sort())
}

/// `kernel` has at least one valid sample at `piece_len`.
pub open spec fn has_samples(ms: Seq<CalibrationMeasurement>, piece_len: usize, kernel: BpeKernel) -> bool {
    valid_samples(ms, piece_len, kernel).len() > 0
}

/// `a` is selected over `b`: a lower median, or an equal median and an
/// earlier tie-break position.
pub open spec fn selected_over(
    ms: Seq<CalibrationMeasurement>,
    piece_len: usize,
    a: BpeKernel,
    b: BpeKernel,
) -> bool {
    sample_median(ms, piece_len, a) < sample_median(ms, piece_len, b) || (sample_median(
        ms,
        piece_len,
        a,
    ) == sample_median(ms, piece_len, b) && kernel_rank(a) <= kernel_rank(b))
}

/// `kernel` wins `piece_len`: it has valid samples and is selected over every
/// other kernel with valid samples.
pub open spec fn is_winner(ms: Seq<CalibrationMeasurement>, piece_len: usize, kernel: BpeKernel) -> bool {
    &&& has_samples(ms, piece_len, kernel)
    &&& forall|other: BpeKernel|
        has_samples(ms, piece_len, other) ==> #[trigger] selected_over(ms, piece_len, kernel, other)
}

/// Some measurement probed `piece_len`.
pub open spec fn is_probed(ms: Seq<CalibrationMeasurement>, piece_len: usize) -> bool {
    exists|i: int| 0 <= i < ms.len() && (#[trigger] ms[i]).piece_len == piece_len
}

/// Some semantically matching measurement probed `piece_len`.
pub open spec fn has_valid_kernel(ms: Seq<CalibrationMeasurement>, piece_len: usize) -> bool {
    exists|i: int|
        0 <= i < ms.len() && (#[trigger] ms[i]).piece_len == piece_len && ms[i].semantic_match
}

/// Number of measurements whose output did not match the oracle.
pub open spec fn rejected_count(ms: Seq<CalibrationMeasurement>) -> nat
    decreases ms.len(),
{
    if ms.len() == 0 {
        0
    } else {
        rejected_count(ms.drop_last()) + if ms.last().semantic_match {
            0nat
        } else {
            1nat
        }
    }
}

/// Integers of a `u64` sequence.
pub open spec fn as_ints(s: Seq<u64>) -> Seq<int> {
    s.map_values(|x: u64| x as int)
}

/// A sequence is nondecreasing.
pub open spec fn nondecreasing(s: Seq<u64>) -> bool {
    forall|i: int, j: int| 0 <= i <= j < s.len() ==> s[i] <= s[j]
}

/// Deterministic result of one calibration data set.
#[derive(Clone, Debug, PartialEq, Eq)]
pub struct CalibrationReport {
    winners: Vec<CalibrationWinner>,
    rejected_semantic_measurements: usize,
}

/// Overflow-safe integer median of a sorted, non-empty sample list.
pub fn integer_median(sorted: &[u64]) -> (median: u64)
    requires
        sorted.len() > 0,
        nondecreasing(sorted@),
    ensures
        median == median_of_sorted(as_ints(sorted@)),
{
    let middle = sorted.len() / 2;
    if sorted.len() % 2 == 1 {
        sorted[middle]
    } else {
        let low = sorted[middle - 1];
        let high = sorted[middle];
        low + (high - low) / 2
    }
}

/// Overflow-safe integer median of timing samples in any order: the middle
/// sample, or the floor midpoint of the two middle samples; `None` for no
/// samples.
pub fn median(samples: &[u64]) -> (median: Option<u64>)
    ensures
        samples.len() == 0 <==> median is None,
        median matches Some(m) ==> m == median_of_sorted(as_ints(samples@).sort()),
{
    if samples.len() == 0 {
        return None;
    }
    let sorted = sorted_samples(samples);
    proof {
        let s = as_ints(samples@);
        let leq = |x: int, y: int| x <= y;
        s.lemma_sort_ensures();
        assert(total_ordering(leq));
        assert(sorted_by(as_ints(sorted@), leq)) by {
            assert forall|a: int, b: int| 0 <= a < b < as_ints(sorted@).len() implies #[trigger] leq(
                as_ints(sorted@)[a],
                as_ints(sorted@)[b],
            ) by {
                assert(sorted@[a] <= sorted@[b]);
            }
        }
        lemma_sorted_unique(as_ints(sorted@), s.sort(), leq);
    }
    Some(integer_median(sorted.as_slice()))
}

/// Ascending copy of a sample list, by insertion.
fn sorted_samples(samples: &[u64]) -> (out: Vec<u64>)
    ensures
        nondecreasing(out@),
        out.len() == samples.len(),
        as_ints(out@).to_multiset() == as_ints(samples@).to_multiset(),
{
    let mut out: Vec<u64> = Vec::new();
    let mut i: usize = 0;
    assert(as_ints(samples@.take(0)) =~= Seq::<int>::empty());
    assert(as_ints(out@) =~= Seq::<int>::empty());
    while i < samples.len()
        invariant
            i <= samples.len(),
            out.len() == i,
            nondecreasing(out@),
            as_ints(out@).to_multiset() == as_ints(samples@.take(i as int)).to_multiset(),
        decreases samples.len() - i,
    {
        let x = samples[i];
        let mut pos: usize = 0;
        while pos < out.len() && out[pos] <= x
            invariant
                pos <= out.len(),
                forall|j: int| 0 <= j < pos ==> out@[j] <= x,
            decreases out.len() - pos,
        {
            pos = pos + 1;
        }
        let ghost before = out@;
        out.insert(pos, x);
        proof {
            assert(as_ints(out@) =~= as_ints(before).insert(pos as int, x as int));
            to_multiset_insert(as_ints(before), pos as int, x as int);
            assert(as_ints(samples@.take(i + 1)) =~= as_ints(samples@.take(i as int)).push(
                x as int,
            ));
            to_multiset_build(as_ints(samples@.take(i as int)), x as int);
            assert forall|a: int, b: int| 0 <= a <= b < out.len() implies out@[a] <= out@[b] by {
                if pos < before.len() {
                    assert(x < before[pos as int]);
                }
            }
        }
        i = i + 1;
    }
    assert(samples@.take(samples.len() as int) =~= samples@);
    out
}

/// Valid samples of `kernel` at `piece_len`, in input order.
pub(crate) fn collect_samples(ms: &[CalibrationMeasurement], piece_len: usize, kernel: BpeKernel) -> (samples:
    Vec<u64>)
    ensures
        as_ints(samples@) == valid_samples(ms@, piece_len, kernel),
{
    let mut samples: Vec<u64> = Vec::new();
    let mut i: usize = 0;
    assert(as_ints(samples@) =~= valid_samples(ms@.take(0), piece_len, kernel));
    while i < ms.len()
        invariant
            i <= ms.len(),
            as_ints(samples@) == valid_samples(ms@.take(i as int), piece_len, kernel),
        decreases ms.len() - i,
    {
        let m = ms[i];
        assert(ms@.take(i + 1).drop_last() =~= ms@.take(i as int));
        if m.semantic_match && m.piece_len == piece_len && m.kernel == kernel {
            samples.push(m.elapsed_nanos);
        }
        assert(as_ints(samples@) =~= valid_samples(ms@.take(i + 1), piece_len, kernel));
        i = i + 1;
    }
    assert(ms@.take(ms.len() as int) =~= ms@);
    samples
}

/// The median of the valid samples, from an ascending copy of them.
fn median_of_samples(ms: &[CalibrationMeasurement], piece_len: usize, kernel: BpeKernel) -> (median:
    Option<u64>)
    ensures
        match median {
            Some(m) => has_samples(ms@, piece_len, kernel) && m == sample_median(
                ms@,
                piece_len,
                kernel,
            ),
            None => !has_samples(ms@, piece_len, kernel),
        },
{
    let samples = collect_samples(ms, piece_len, kernel);
    if samples.len() == 0 {
        return None;
    }
    let sorted = sorted_samples(samples.as_slice());
    proof {
        let s = valid_samples(ms@, piece_len, kernel);
        let leq = |x: int, y: int| x <= y;
        s.lemma_sort_ensures();
        assert(total_ordering(leq));
        assert(sorted_by(as_ints(sorted@), leq)) by {
            assert forall|a: int, b: int| 0 <= a < b < as_ints(sorted@).len() implies #[trigger] leq(
                as_ints(sorted@)[a],
                as_ints(sorted@)[b],
            ) by {
                assert(sorted@[a] <= sorted@[b]);
            }
        }
        lemma_sorted_unique(as_ints(sorted@), s.sort(), leq);
        assert(as_ints(sorted@).len() == sorted@.len());
    }
    Some(integer_median(sorted.as_slice()))
}

/// Smallest probed length above `above` (all lengths when `above` is `None`).
pub(crate) fn next_length(ms: &[CalibrationMeasurement], above: Option<usize>) -> (next: Option<usize>)
    ensures
        match next {
            Some(l) => is_probed(ms@, l) && is_above(above, l) && forall|l2: usize|
                is_probed(ms@, l2) && is_above(above, l2) ==> l <= l2,
            None => forall|l2: usize| is_probed(ms@, l2) ==> !is_above(above, l2),
        },
{
    let mut best: Option<usize> = None;
    let mut i: usize = 0;
    while i < ms.len()
        invariant
            i <= ms.len(),
            match best {
                Some(l) => is_probed(ms@, l) && is_above(above, l) && forall|j: int|
                    0 <= j < i && is_above(above, #[trigger] ms@[j].piece_len) ==> l
                        <= ms@[j].piece_len,
                None => forall|j: int|
                    0 <= j < i ==> !is_above(above, #[trigger] ms@[j].piece_len),
            },
        decreases ms.len() - i,
    {
        let len = ms[i].piece_len;
        let qualifies = match above {
            Some(a) => len > a,
            None => true,
        };
        if qualifies {
            match best {
                Some(b) => {
                    if len < b {
                        best = Some(len);
                    }
                },
                None => {
                    best = Some(len);
                },
            }
        }
        i = i + 1;
    }
    proof {
        assert forall|l2: usize| is_probed(ms@, l2) && is_above(above, l2) implies match best {
            Some(l) => l <= l2,
            None => false,
        } by {
            let j = choose|j: int| 0 <= j < ms@.len() && (#[trigger] ms@[j]).piece_len == l2;
        }
    }
    best
}

/// `l` lies strictly above `above`.
pub open spec fn is_above(above: Option<usize>, l: usize) -> bool {
    match above {
        Some(a) => l > a,
        None => true,
    }
}

/// Winners cover exactly the probed lengths up to `upto`, ascending.
pub open spec fn winners_upto(
    ms: Seq<CalibrationMeasurement>,
    winners: Seq<CalibrationWinner>,
    upto: Option<usize>,
) -> bool {
    &&& forall|i: int, j: int|
        0 <= i < j < winners.len() ==> (#[trigger] winners[i]).piece_len
            < (#[trigger] winners[j]).piece_len
    &&& forall|i: int|
        0 <= i < winners.len() ==> {
            let w = #[trigger] winners[i];
            &&& is_probed(ms, w.piece_len)
            &&& !is_above(upto, w.piece_len)
            &&& is_winner(ms, w.piece_len, w.kernel)
            &&& w.median_nanos == sample_median(ms, w.piece_len, w.kernel)
        }
    &&& forall|l: usize|
        is_probed(ms, l) && !is_above(upto, l) ==> exists|i: int|
            0 <= i < winners.len() && (#[trigger] winners[i]).piece_len == l
}

/// The winners of a complete calibration: one per probed length, ascending,
/// each the selected kernel of its length with its median.
pub open spec fn calibration_winners(
    ms: Seq<CalibrationMeasurement>,
    winners: Seq<CalibrationWinner>,
) -> bool {
    &&& forall|i: int, j: int|
        0 <= i < j < winners.len() ==> (#[trigger] winners[i]).piece_len
            < (#[trigger] winners[j]).piece_len
    &&& forall|i: int|
        0 <= i < winners.len() ==> {
            let w = #[trigger] winners[i];
            &&& is_probed(ms, w.piece_len)
            &&& is_winner(ms, w.piece_len, w.kernel)
            &&& w.median_nanos == sample_median(ms, w.piece_len, w.kernel)
        }
    &&& forall|l: usize|
        is_probed(ms, l) ==> exists|i: int|
            0 <= i < winners.len() && (#[trigger] winners[i]).piece_len == l
}

/// What a report built from `ms` is: `NoMeasurements` on no measurements;
/// otherwise the smallest probed length without a semantically matching
/// measurement, if there is one; otherwise the report that counts the rejected
/// measurements and holds the winners.
pub open spec fn report_outcome(
    ms: Seq<CalibrationMeasurement>,
    result: Result<CalibrationReport, CalibrationError>,
) -> bool {
    match result {
        Err(CalibrationError::NoMeasurements) => ms.len() == 0,
        Err(CalibrationError::NoSemanticallyValidKernel { piece_len }) => {
            &&& ms.len() > 0
            &&& is_probed(ms, piece_len)
            &&& !has_valid_kernel(ms, piece_len)
            &&& forall|l: usize| is_probed(ms, l) && l < piece_len ==> has_valid_kernel(ms, l)
        },
        Ok(report) => {
            &&& ms.len() > 0
            &&& forall|l: usize| is_probed(ms, l) ==> has_valid_kernel(ms, l)
            &&& report.spec_rejected() == rejected_count(ms)
            &&& calibration_winners(ms, report.spec_winners())
        },
    }
}

/// Two winner lists of one calibration name the same lengths, position by
/// position, up to `i`.
proof fn lemma_winner_lengths_agree(
    ms: Seq<CalibrationMeasurement>,
    a: Seq<CalibrationWinner>,
    b: Seq<CalibrationWinner>,
    i: int,
)
    requires
        calibration_winners(ms, a),
        calibration_winners(ms, b),
        0 <= i <= a.len(),
        i <= b.len(),
    ensures
        forall|j: int| 0 <= j < i ==> (#[trigger] a[j]).piece_len == b[j].piece_len,
    decreases i,
{
    if i > 0 {
        lemma_winner_lengths_agree(ms, a, b, i - 1);
        let j = i - 1;
        let x = a[j].piece_len;
        let y = b[j].piece_len;
        if x < y {
            assert(is_probed(ms, x));
            let k = choose|k: int| 0 <= k < b.len() && (#[trigger] b[k]).piece_len == x;
            if k < j {
                assert(a[k].piece_len == b[k].piece_len);
                assert(a[k].piece_len < a[j].piece_len);
            } else if k > j {
                assert(b[j].piece_len < b[k].piece_len);
            }
        } else if y < x {
            assert(is_probed(ms, y));
            let k = choose|k: int| 0 <= k < a.len() && (#[trigger] a[k]).piece_len == y;
            if k < j {
                assert(a[k].piece_len == b[k].piece_len);
                assert(b[k].piece_len < b[j].piece_len);
            } else if k > j {
                assert(a[j].piece_len < a[k].piece_len);
            }
        }
    }
}

/// One calibration has one winner list.
proof fn lemma_winners_unique(ms: Seq<CalibrationMeasurement>, a: Seq<CalibrationWinner>, b: Seq<CalibrationWinner>)
    requires
        calibration_winners(ms, a),
        calibration_winners(ms, b),
    ensures
        a == b,
{
    if a.len() < b.len() {
        lemma_winner_lengths_agree(ms, a, b, a.len() as int);
        let y = b[a.len() as int].piece_len;
        assert(is_probed(ms, y));
        let k = choose|k: int| 0 <= k < a.len() && (#[trigger] a[k]).piece_len == y;
        assert(b[k].piece_len < b[a.len() as int].piece_len);
    } else if b.len() < a.len() {
        lemma_winner_lengths_agree(ms, b, a, b.len() as int);
        let y = a[b.len() as int].piece_len;
        assert(is_probed(ms, y));
        let k = choose|k: int| 0 <= k < b.len() && (#[trigger] b[k]).piece_len == y;
        assert(a[k].piece_len < a[b.len() as int].piece_len);
    } else {
        lemma_winner_lengths_agree(ms, a, b, a.len() as int);
        assert forall|j: int| 0 <= j < a.len() implies a[j] == b[j] by {
            assert(a[j].piece_len == b[j].piece_len);
            lemma_winner_unique(ms, a[j].piece_len, a[j].kernel, b[j].kernel);
        }
        assert(a =~= b);
    }
}

/// Building a report is determined by the measurements: two outcomes that
/// both fit `report_outcome` on the same measurements are the same error, or
/// reports with the same winners and the same rejected count.
pub proof fn lemma_report_outcome_unique(
    ms: Seq<CalibrationMeasurement>,
    a: Result<CalibrationReport, CalibrationError>,
    b: Result<CalibrationReport, CalibrationError>,
)
    requires
        report_outcome(ms, a),
        report_outcome(ms, b),
    ensures
        match (a, b) {
            (Ok(x), Ok(y)) => x.spec_winners() == y.spec_winners() && x.spec_rejected()
                == y.spec_rejected(),
            (Err(e), Err(f)) => e == f,
            _ => false,
        },
{
    match (a, b) {
        (Ok(x), Ok(y)) => {
            lemma_winners_unique(ms, x.spec_winners(), y.spec_winners());
        },
        (Ok(x), Err(CalibrationError::NoSemanticallyValidKernel { piece_len })) => {
            assert(has_valid_kernel(ms, piece_len));
        },
        (Err(CalibrationError::NoSemanticallyValidKernel { piece_len }), Ok(y)) => {
            assert(has_valid_kernel(ms, piece_len));
        },
        (
            Err(CalibrationError::NoSemanticallyValidKernel { piece_len: p }),
            Err(CalibrationError::NoSemanticallyValidKernel { piece_len: q }),
        ) => {
            if p < q {
                assert(has_valid_kernel(ms, p));
            } else if q < p {
                assert(has_valid_kernel(ms, q));
            }
        },
        _ => {},
    }
}

/// A semantically matching measurement gives its kernel a valid sample.
proof fn lemma_valid_measurement_sample(ms: Seq<CalibrationMeasurement>, i: int)
    requires
        0 <= i < ms.len(),
        ms[i].semantic_match,
    ensures
        has_samples(ms, ms[i].piece_len, ms[i].kernel),
    decreases ms.len(),
{
    if i < ms.len() - 1 {
        assert(ms.drop_last()[i] == ms[i]);
        lemma_valid_measurement_sample(ms.drop_last(), i);
    }
}

/// A kernel with a valid sample at a length has a matching measurement there.
proof fn lemma_sample_measurement(ms: Seq<CalibrationMeasurement>, piece_len: usize, kernel: BpeKernel)
    requires
        has_samples(ms, piece_len, kernel),
    ensures
        exists|i: int|
            0 <= i < ms.len() && (#[trigger] ms[i]).piece_len == piece_len && ms[i].kernel
                == kernel && ms[i].semantic_match,
    decreases ms.len(),
{
    let m = ms.last();
    if !(m.semantic_match && m.piece_len == piece_len && m.kernel == kernel) {
        lemma_sample_measurement(ms.drop_last(), piece_len, kernel);
        let i = choose|i: int|
            0 <= i < ms.drop_last().len() && (#[trigger] ms.drop_last()[i]).piece_len == piece_len
                && ms.drop_last()[i].kernel == kernel && ms.drop_last()[i].semantic_match;
        assert(ms[i] == ms.drop_last()[i]);
    } else {
        assert(ms[ms.len() - 1] == m);
    }
}

/// A calibration winner always has a semantically matching measurement: a
/// faster semantic mismatch can never win.
pub proof fn lemma_winner_matches_oracle(ms: Seq<CalibrationMeasurement>, piece_len: usize, kernel: BpeKernel)
    requires
        is_winner(ms, piece_len, kernel),
    ensures
        exists|i: int|
            0 <= i < ms.len() && (#[trigger] ms[i]).piece_len == piece_len && ms[i].kernel
                == kernel && ms[i].semantic_match,
{
    lemma_sample_measurement(ms, piece_len, kernel);
}

/// The winner of a length is unique.
pub proof fn lemma_winner_unique(ms: Seq<CalibrationMeasurement>, piece_len: usize, a: BpeKernel, b: BpeKernel)
    requires
        is_winner(ms, piece_len, a),
        is_winner(ms, piece_len, b),
    ensures
        a == b,
{
    assert(selected_over(ms, piece_len, a, b));
    assert(selected_over(ms, piece_len, b, a));
}

impl CalibrationReport {
    /// The winners, one per probed length in ascending order.
    pub closed spec fn spec_winners(&self) -> Seq<CalibrationWinner> {
        self.winners@
    }

    /// Number of measurements rejected for not matching the oracle.
    pub closed spec fn spec_rejected(&self) -> usize {
        self.rejected_semantic_measurements
    }

    /// Selects, for every probed length in ascending order, the kernel with
    /// the lowest median over its semantically matching measurements (ties go
    /// to the earlier kernel). Fails without measurements, or at the smallest
    /// probed length that has no semantically matching measurement.
    pub fn from_measurements(measurements: &[CalibrationMeasurement]) -> (result: Result<
        Self,
        CalibrationError,
    >)
        ensures
            report_outcome(measurements@, result),
    {
        if measurements.len() == 0 {
            return Err(CalibrationError::NoMeasurements);
        }
        let mut rejected: usize = 0;
        let mut i: usize = 0;
        assert(measurements@.take(0) =~= Seq::<CalibrationMeasurement>::empty());
        while i < measurements.len()
            invariant
                i <= measurements.len(),
                rejected == rejected_count(measurements@.take(i as int)),
                rejected <= i,
            decreases measurements.len() - i,
        {
            assert(measurements@.take(i + 1).drop_last() =~= measurements@.take(i as int));
            if !measurements[i].semantic_match {
                rejected = rejected + 1;
            }
            i = i + 1;
        }
        assert(measurements@.take(measurements.len() as int) =~= measurements@);
        let mut winners: Vec<CalibrationWinner> = Vec::new();
        let mut done: Option<usize> = None;
        loop
            invariant
                winners_upto(measurements@, winners@, done),
                forall|l: usize|
                    is_probed(measurements@, l) && !is_above(done, l) ==> has_valid_kernel(
                        measurements@,
                        l,
                    ),
                rejected == rejected_count(measurements@),
                measurements.len() > 0,
            decreases (match done {
                Some(d) => usize::MAX - d,
                None => usize::MAX + 1,
            }),
        {
            let piece_len = match next_length(measurements, done) {
                Some(l) => l,
                None => {
                    proof {
                        assert forall|l: usize| is_probed(measurements@, l) implies has_valid_kernel(
                            measurements@,
                            l,
                        ) by {}
                        assert(calibration_winners(measurements@, winners@)) by {
                            assert forall|l: usize| is_probed(measurements@, l) implies exists|i: int|
                                0 <= i < winners@.len() && (#[trigger] winners@[i]).piece_len
                                    == l by {
                                assert(!is_above(done, l));
                            }
                        }
                    }
                    return Ok(
                        CalibrationReport { winners, rejected_semantic_measurements: rejected },
                    );
                },
            };
            let mut best: Option<(BpeKernel, u64)> = None;
            let mut k: usize = 0;
            while k < 4
                invariant
                    k <= 4,
                    match best {
                        Some((kernel, median)) => {
                            &&& has_samples(measurements@, piece_len, kernel)
                            &&& median == sample_median(measurements@, piece_len, kernel)
                            &&& kernel_rank(kernel) < k
                            &&& forall|j: int|
                                0 <= j < k && has_samples(measurements@, piece_len, kernel_at(j))
                                    ==> #[trigger] selected_over(
                                    measurements@,
                                    piece_len,
                                    kernel,
                                    kernel_at(j),
                                )
                        },
                        None => forall|j: int|
                            0 <= j < k ==> !has_samples(measurements@, piece_len, #[trigger] kernel_at(j)),
                    },
                decreases 4 - k,
            {
                let kernel = if k == 0 {
                    BpeKernel::Reference
                } else if k == 1 {
                    BpeKernel::TinyScan
                } else if k == 2 {
                    BpeKernel::Indexed
                } else {
                    BpeKernel::Heap
                };
                assert(kernel == kernel_at(k as int));
                let ghost prior = best;
                match median_of_samples(measurements, piece_len, kernel) {
                    Some(median) => {
                        let better = match best {
                            Some((_, best_median)) => median < best_median,
                            None => true,
                        };
                        if better {
                            best = Some((kernel, median));
                        }
                        proof {
                            let (bk, bm) = best.unwrap();
                            assert forall|j: int|
                                0 <= j < k + 1 && has_samples(
                                    measurements@,
                                    piece_len,
                                    kernel_at(j),
                                ) implies #[trigger] selected_over(
                                measurements@,
                                piece_len,
                                bk,
                                kernel_at(j),
                            ) by {
                                if j < k {
                                    let (pk, pm) = prior.unwrap();
                                    assert(selected_over(measurements@, piece_len, pk, kernel_at(j)));
                                }
                            }
                        }
                    },
                    None => {},
                }
                k = k + 1;
            }
            let (kernel, median_nanos) = match best {
                Some(b) => b,
                None => {
                    proof {
                        if has_valid_kernel(measurements@, piece_len) {
                            let i = choose|i: int|
                                0 <= i < measurements@.len() && (#[trigger] measurements@[i]).piece_len
                                    == piece_len && measurements@[i].semantic_match;
                            lemma_valid_measurement_sample(measurements@, i);
                            let kr = kernel_rank(measurements@[i].kernel);
                            assert(kernel_at(kr) == measurements@[i].kernel);
                        }
                        assert forall|l: usize|
                            is_probed(measurements@, l) && l < piece_len implies has_valid_kernel(
                            measurements@,
                            l,
                        ) by {
                            assert(!is_above(done, l));
                        }
                    }
                    return Err(CalibrationError::NoSemanticallyValidKernel { piece_len });
                },
            };
            proof {
                assert forall|other: BpeKernel| has_samples(measurements@, piece_len, other) implies #[trigger] selected_over(
                    measurements@,
                    piece_len,
                    kernel,
                    other,
                ) by {
                    assert(kernel_at(kernel_rank(other)) == other);
                }
            }
            let ghost before = winners@;
            winners.push(CalibrationWinner { piece_len, kernel, median_nanos });
            proof {
                let w = winners@;
                assert(w[before.len() as int] == CalibrationWinner { piece_len, kernel, median_nanos });
                assert forall|i: int| 0 <= i < before.len() implies w[i] == before[i] by {}
                assert forall|i: int, j: int|
                    0 <= i < j < w.len() implies (#[trigger] w[i]).piece_len
                    < (#[trigger] w[j]).piece_len by {
                    if j == before.len() {
                        assert(!is_above(done, before[i].piece_len));
                    }
                }
                assert forall|l: usize|
                    is_probed(measurements@, l) && !is_above(Some(piece_len), l) implies exists|i: int|
                    0 <= i < w.len() && (#[trigger] w[i]).piece_len == l by {
                    if l == piece_len {
                        assert(w[before.len() as int].piece_len == l);
                    } else {
                        assert(!is_above(done, l));
                        let i = choose|i: int|
                            0 <= i < before.len() && (#[trigger] before[i]).piece_len == l;
                        assert(w[i] == before[i]);
                    }
                }
                assert forall|l: usize|
                    is_probed(measurements@, l) && !is_above(Some(piece_len), l) implies has_valid_kernel(
                    measurements@,
                    l,
                ) by {
                    if l == piece_len {
                        lemma_sample_measurement(measurements@, piece_len, kernel);
                    } else {
                        assert(!is_above(done, l));
                    }
                }
            }
            done = Some(piece_len);
        }
    }

    pub fn winners(&self) -> (w: &[CalibrationWinner])
        ensures
            w@ == self.spec_winners(),
    {
        self.winners.as_slice()
    }

    pub fn rejected_semantic_measurements(&self) -> (n: usize)
        ensures
            n == self.spec_rejected(),
    {
        self.rejected_semantic_measurements
    }
}

} // verus!
