//! Deterministic profile synthesis from robust ElasticTokenizer timings.
//!
//! The fitter partitions ordered probe lengths into exactly six contiguous
//! execution classes (S/M/L/XL/XXL/XXXL). Correctness is a hard gate: any
//! `(piece length, kernel)` pair that ever failed canonical token-id parity is
//! excluded. Each partition is scored lexicographically by the sum of robust
//! median costs, then the sum of p95 costs; the cheapest partition wins. No
//! weighted score can compensate for semantic failure.

use vstd::prelude::*;

use crate::elastic_calibration::{
    CalibrationMeasurement, as_ints, collect_samples, is_above, is_probed, kernel_at, next_length,
    valid_samples,
};
use crate::elastic_tokenizer::{BpeKernel, ElasticProfile, ElasticThresholds, ThresholdError};

verus! {

/// Number of execution classes of a profile.
pub const PROFILE_CLASSES: usize = 6;

/// Robust cost of one `(probe length, kernel)` pair.
#[derive(Clone, Copy, Debug, PartialEq, Eq, Structural)]
pub struct RobustTimingCost {
    pub median_nanos: u64,
    pub p95_nanos: u64,
}

/// Cost of a (partial) profile: the two sums compared lexicographically.
#[derive(Clone, Copy, Debug, PartialEq, Eq, Structural)]
pub struct ProfileCost {
    pub median_sum: u128,
    pub p95_sum: u128,
}

#[derive(Clone, Copy, Debug, PartialEq, Eq, Structural)]
struct State {
    cost: ProfileCost,
    start: usize,
    kernel: usize,
}

/// Measurements cannot be converted into a valid six-class profile.
#[derive(Clone, Copy, Debug, PartialEq, Eq, Structural)]
pub enum ProfileFitError {
    NoMeasurements,
    NotEnoughProbeLengths { found: usize },
    NoFeasibleSixClassProfile,
    InvalidThresholds(ThresholdError),
}

/// Robust costs per probe length, indexed by kernel tie-break position.
pub type CostRow = [Option<RobustTimingCost>; 4];

/// Kernel `k` has a robust cost at every probe length of `[start, end)`.
pub open spec fn seg_present(costs: Seq<CostRow>, start: int, end: int, k: int) -> bool {
    forall|i: int| start <= i < end ==> (#[trigger] costs[i])[k] is Some
}

/// Sum of the median costs of kernel `k` over `[start, end)`.
pub open spec fn seg_median(costs: Seq<CostRow>, start: int, end: int, k: int) -> int
    decreases end - start,
{
    if end <= start {
        0
    } else {
        seg_median(costs, start, end - 1, k) + costs[end - 1][k].unwrap().median_nanos
    }
}

/// Sum of the p95 costs of kernel `k` over `[start, end)`.
pub open spec fn seg_p95(costs: Seq<CostRow>, start: int, end: int, k: int) -> int
    decreases end - start,
{
    if end <= start {
        0
    } else {
        seg_p95(costs, start, end - 1, k) + costs[end - 1][k].unwrap().p95_nanos
    }
}

/// The first `j` segments of `(cuts, kernels)` partition `[0, cuts[j])`
/// into non-empty segments whose kernels have costs everywhere.
pub open spec fn part_feasible(costs: Seq<CostRow>, cuts: Seq<int>, kernels: Seq<int>, j: int) -> bool {
    &&& 0 <= j
    &&& cuts.len() > j
    &&& kernels.len() >= j
    &&& cuts[0] == 0
    &&& forall|t: int| 0 <= t < j ==> #[trigger] cuts[t] < cuts[t + 1]
    &&& forall|t: int| 0 <= t < j ==> 0 <= #[trigger] kernels[t] < 4
    &&& forall|t: int| 0 <= t < j ==> seg_present(costs, cuts[t], cuts[t + 1], #[trigger] kernels[t])
}

/// Median sum of the first `j` segments.
pub open spec fn part_median(costs: Seq<CostRow>, cuts: Seq<int>, kernels: Seq<int>, j: int) -> int
    decreases j,
{
    if j <= 0 {
        0
    } else {
        part_median(costs, cuts, kernels, j - 1) + seg_median(
            costs,
            cuts[j - 1],
            cuts[j],
            kernels[j - 1],
        )
    }
}

/// p95 sum of the first `j` segments.
pub open spec fn part_p95(costs: Seq<CostRow>, cuts: Seq<int>, kernels: Seq<int>, j: int) -> int
    decreases j,
{
    if j <= 0 {
        0
    } else {
        part_p95(costs, cuts, kernels, j - 1) + seg_p95(costs, cuts[j - 1], cuts[j], kernels[j - 1])
    }
}

/// Lexicographic order of `(median sum, p95 sum)` costs.
pub open spec fn cost_le(a_median: int, a_p95: int, b_median: int, b_p95: int) -> bool {
    a_median < b_median || (a_median == b_median && a_p95 <= b_p95)
}

/// A six-class partition of all `n` probe lengths.
pub open spec fn is_full_partition(costs: Seq<CostRow>, cuts: Seq<int>, kernels: Seq<int>) -> bool {
    part_feasible(costs, cuts, kernels, 6) && cuts[6] == costs.len()
}

/// A six-class partition that is no more expensive than any other.
pub open spec fn is_optimal_partition(costs: Seq<CostRow>, cuts: Seq<int>, kernels: Seq<int>) -> bool {
    &&& is_full_partition(costs, cuts, kernels)
    &&& forall|c2: Seq<int>, k2: Seq<int>|
        #[trigger] is_full_partition(costs, c2, k2) ==> cost_le(
            part_median(costs, cuts, kernels, 6),
            part_p95(costs, cuts, kernels, 6),
            part_median(costs, c2, k2, 6),
            part_p95(costs, c2, k2, 6),
        )
}

/// `(start, kernel)` comes no later than `(start2, kernel2)` in search
/// order: by start, then by kernel tie-break position.
pub open spec fn search_le(start: int, kernel: int, start2: int, kernel2: int) -> bool {
    start < start2 || (start == start2 && kernel <= kernel2)
}

/// Compared from segment `j - 1` back to the first, each segment by its
/// start and then its kernel, the segments of `(cuts, kernels)` come no
/// later than those of `(c2, k2)`.
pub open spec fn segments_first(cuts: Seq<int>, kernels: Seq<int>, c2: Seq<int>, k2: Seq<int>, j: int) -> bool
    decreases j,
{
    if j <= 0 {
        true
    } else if cuts[j - 1] == c2[j - 1] && kernels[j - 1] == k2[j - 1] {
        segments_first(cuts, kernels, c2, k2, j - 1)
    } else {
        search_le(cuts[j - 1], kernels[j - 1], c2[j - 1], k2[j - 1])
    }
}

/// The optimal partition the fitter picks among equally cheap ones: the
/// last class starts as early as possible, then has the earliest kernel in
/// tie-break order, then the same for the class before it, and so on.
pub open spec fn is_chosen_partition(costs: Seq<CostRow>, cuts: Seq<int>, kernels: Seq<int>) -> bool {
    &&& is_optimal_partition(costs, cuts, kernels)
    &&& forall|c2: Seq<int>, k2: Seq<int>|
        #[trigger] is_optimal_partition(costs, c2, k2) ==> segments_first(cuts, kernels, c2, k2, 6)
}

/// Two partitions each first against the other agree on their first `j`
/// segments.
proof fn lemma_segments_first_antisymmetric(a: Seq<int>, ka: Seq<int>, b: Seq<int>, kb: Seq<int>, j: int)
    requires
        segments_first(a, ka, b, kb, j),
        segments_first(b, kb, a, ka, j),
    ensures
        forall|t: int| 0 <= t < j ==> a[t] == b[t] && ka[t] == kb[t],
    decreases j,
{
    if j > 0 {
        if a[j - 1] == b[j - 1] && ka[j - 1] == kb[j - 1] {
            lemma_segments_first_antisymmetric(a, ka, b, kb, j - 1);
        }
    }
}

/// At most one partition is the one the fitter picks, so its profile is
/// determined by the costs.
pub proof fn lemma_chosen_partition_unique(costs: Seq<CostRow>, a: Seq<int>, ka: Seq<int>, b: Seq<int>, kb: Seq<int>)
    requires
        is_chosen_partition(costs, a, ka),
        is_chosen_partition(costs, b, kb),
    ensures
        forall|t: int| 0 <= t <= 6 ==> a[t] == b[t],
        forall|t: int| 0 <= t < 6 ==> ka[t] == kb[t],
{
    assert(segments_first(a, ka, b, kb, 6));
    assert(segments_first(b, kb, a, ka, 6));
    lemma_segments_first_antisymmetric(a, ka, b, kb, 6);
}

/// Class boundary between two adjacent segments: the floor midpoint of the
/// last length of one and the first length of the next.
pub open spec fn midpoint(left: int, right: int) -> int {
    left + (right - left) / 2
}

/// The profile a partition describes.
pub open spec fn partition_profile(lengths: Seq<usize>, cuts: Seq<int>, kernels: Seq<int>, p: ElasticProfile) -> bool {
    &&& p.spec_thresholds().s_max == midpoint(lengths[cuts[1] - 1] as int, lengths[cuts[1]] as int)
    &&& p.spec_thresholds().m_max == midpoint(lengths[cuts[2] - 1] as int, lengths[cuts[2]] as int)
    &&& p.spec_thresholds().l_max == midpoint(lengths[cuts[3] - 1] as int, lengths[cuts[3]] as int)
    &&& p.spec_thresholds().xl_max == midpoint(lengths[cuts[4] - 1] as int, lengths[cuts[4]] as int)
    &&& p.spec_thresholds().xxl_max == midpoint(lengths[cuts[5] - 1] as int, lengths[cuts[5]] as int)
    &&& forall|t: int| 0 <= t < 6 ==> p.spec_kernels()[t] == kernel_at(#[trigger] kernels[t])
}

/// Some six-class partition covers all probe lengths.
pub open spec fn has_full_partition(costs: Seq<CostRow>) -> bool {
    exists|cuts: Seq<int>, kernels: Seq<int>| is_full_partition(costs, cuts, kernels)
}

/// Probe lengths strictly increase.
pub open spec fn strictly_sorted(lengths: Seq<usize>) -> bool {
    forall|i: int, j: int| 0 <= i < j < lengths.len() ==> lengths[i] < lengths[j]
}

/// Largest value of a cost sum over `count` probe lengths.
pub open spec fn sum_bound(count: int) -> int {
    count * 0xffff_ffff_ffff_ffff
}

proof fn lemma_seg_bounds(costs: Seq<CostRow>, start: int, end: int, k: int)
    requires
        start <= end,
    ensures
        0 <= seg_median(costs, start, end, k) <= sum_bound(end - start),
        0 <= seg_p95(costs, start, end, k) <= sum_bound(end - start),
    decreases end - start,
{
    if start < end {
        lemma_seg_bounds(costs, start, end - 1, k);
        assert(sum_bound(end - start) == sum_bound(end - 1 - start) + 0xffff_ffff_ffff_ffff) by (nonlinear_arith);
    }
}

proof fn lemma_part_bounds(costs: Seq<CostRow>, cuts: Seq<int>, kernels: Seq<int>, j: int)
    requires
        part_feasible(costs, cuts, kernels, j),
    ensures
        0 <= part_median(costs, cuts, kernels, j) <= sum_bound(cuts[j]),
        0 <= part_p95(costs, cuts, kernels, j) <= sum_bound(cuts[j]),
    decreases j,
{
    if j > 0 {
        assert(part_feasible(costs, cuts, kernels, j - 1));
        lemma_part_bounds(costs, cuts, kernels, j - 1);
        assert(cuts[j - 1] < cuts[j]);
        lemma_seg_bounds(costs, cuts[j - 1], cuts[j], kernels[j - 1]);
        assert(sum_bound(cuts[j]) == sum_bound(cuts[j - 1]) + sum_bound(cuts[j] - cuts[j - 1])) by (nonlinear_arith);
    }
}

/// The usize bound keeps every cost sum within `u128`.
proof fn lemma_sum_bound_fits(count: int)
    requires
        0 <= count <= usize::MAX,
    ensures
        sum_bound(count) <= u128::MAX,
{
    assert(count * 0xffff_ffff_ffff_ffff <= 0xffff_ffff_ffff_ffff * 0xffff_ffff_ffff_ffff) by (nonlinear_arith)
        requires
            0 <= count <= 0xffff_ffff_ffff_ffff,
    ;
}

/// Cost of kernel `kernel` over the probe lengths `[start, end)`, if it has a
/// robust cost at each of them.
fn segment_cost(costs: &[CostRow], start: usize, end: usize, kernel: usize) -> (cost: Option<ProfileCost>)
    requires
        start <= end <= costs.len(),
        kernel < 4,
    ensures
        match cost {
            Some(c) => seg_present(costs@, start as int, end as int, kernel as int) && c.median_sum
                == seg_median(costs@, start as int, end as int, kernel as int) && c.p95_sum
                == seg_p95(costs@, start as int, end as int, kernel as int),
            None => !seg_present(costs@, start as int, end as int, kernel as int),
        },
{
    let mut median_sum: u128 = 0;
    let mut p95_sum: u128 = 0;
    let mut i: usize = start;
    while i < end
        invariant
            start <= i <= end <= costs.len(),
            kernel < 4,
            seg_present(costs@, start as int, i as int, kernel as int),
            median_sum == seg_median(costs@, start as int, i as int, kernel as int),
            p95_sum == seg_p95(costs@, start as int, i as int, kernel as int),
        decreases end - i,
    {
        let timing = match costs[i][kernel] {
            Some(t) => t,
            None => return None,
        };
        proof {
            lemma_seg_bounds(costs@, start as int, i as int, kernel as int);
            lemma_sum_bound_add(i - start, 1);
            lemma_sum_bound_fits((i + 1 - start) as int);
        }
        median_sum = median_sum + timing.median_nanos as u128;
        p95_sum = p95_sum + timing.p95_nanos as u128;
        i = i + 1;
    }
    Some(ProfileCost { median_sum, p95_sum })
}

/// The state extends a state of the previous layer by one segment ending at `e`.
spec fn state_sound(costs: Seq<CostRow>, prev: Seq<Option<State>>, st: State, e: int) -> bool {
    &&& st.start < e
    &&& st.kernel < 4
    &&& 0 <= st.start < prev.len()
    &&& prev[st.start as int] is Some
    &&& seg_present(costs, st.start as int, e, st.kernel as int)
    &&& st.cost.median_sum == prev[st.start as int].unwrap().cost.median_sum + seg_median(
        costs,
        st.start as int,
        e,
        st.kernel as int,
    )
    &&& st.cost.p95_sum == prev[st.start as int].unwrap().cost.p95_sum + seg_p95(
        costs,
        st.start as int,
        e,
        st.kernel as int,
    )
}

spec fn state_le(st: State, median: int, p95: int) -> bool {
    cost_le(st.cost.median_sum as int, st.cost.p95_sum as int, median, p95)
}

spec fn bounded(st: State, e: int) -> bool {
    st.cost.median_sum <= sum_bound(e) && st.cost.p95_sum <= sum_bound(e)
}

/// Layer `s` holds states only at reachable ends, each within the cost bound.
spec fn layer_shape(row: Seq<Option<State>>, s: int, n: int) -> bool {
    &&& row.len() == n + 1
    &&& forall|e: int| 0 <= e <= n && (e < s || e > n - (6 - s)) ==> (#[trigger] row[e]) is None
    &&& forall|e: int| 0 <= e <= n && (#[trigger] row[e]) is Some ==> bounded(row[e].unwrap(), e)
}

/// Every state of layer `s` extends a state of layer `s - 1`.
spec fn layer_sound(costs: Seq<CostRow>, prev: Seq<Option<State>>, row: Seq<Option<State>>, n: int) -> bool {
    forall|e: int| 0 <= e <= n && (#[trigger] row[e]) is Some ==> state_sound(costs, prev, row[e].unwrap(), e)
}

/// Every `s`-segment partition ending before `upto` has a state at its end
/// that costs no more.
spec fn layer_complete_upto(costs: Seq<CostRow>, row: Seq<Option<State>>, s: int, n: int, upto: int) -> bool {
    forall|cuts: Seq<int>, kernels: Seq<int>|
        #[trigger] part_feasible(costs, cuts, kernels, s) && cuts[s] <= n - (6 - s) && cuts[s] < upto
            ==> row[cuts[s]] is Some && state_le(
            row[cuts[s]].unwrap(),
            part_median(costs, cuts, kernels, s),
            part_p95(costs, cuts, kernels, s),
        )
}

spec fn layer_complete(costs: Seq<CostRow>, row: Seq<Option<State>>, s: int, n: int) -> bool {
    layer_complete_upto(costs, row, s, n, n + 1)
}

/// Every `s`-segment partition ending before `upto` that costs what the
/// state at its end costs has a last segment no earlier in search order
/// than the state's.
spec fn layer_ties_upto(costs: Seq<CostRow>, row: Seq<Option<State>>, s: int, n: int, upto: int) -> bool {
    forall|cuts: Seq<int>, kernels: Seq<int>|
        #[trigger] part_feasible(costs, cuts, kernels, s) && 1 <= s && cuts[s] <= n - (6 - s) && cuts[s] < upto
            && row[cuts[s]] is Some && part_median(costs, cuts, kernels, s) == row[cuts[s]].unwrap().cost.median_sum
            && part_p95(costs, cuts, kernels, s) == row[cuts[s]].unwrap().cost.p95_sum
            ==> search_le(row[cuts[s]].unwrap().start as int, row[cuts[s]].unwrap().kernel as int, cuts[s - 1], kernels[s - 1])
}

spec fn layer_ties(costs: Seq<CostRow>, row: Seq<Option<State>>, s: int, n: int) -> bool {
    layer_ties_upto(costs, row, s, n, n + 1)
}

spec fn zero_state() -> State {
    State { cost: ProfileCost { median_sum: 0, p95_sum: 0 }, start: 0, kernel: 0 }
}

/// The first layer: only the empty partition, at position zero.
spec fn layer_zero(row: Seq<Option<State>>, n: int) -> bool {
    &&& row.len() == n + 1
    &&& row[0] == Some(zero_state())
    &&& forall|e: int| 0 < e <= n ==> (#[trigger] row[e]) is None
}

proof fn lemma_sum_bound_add(a: int, b: int)
    ensures
        sum_bound(a) + sum_bound(b) == sum_bound(a + b),
{
    assert(a * 0xffff_ffff_ffff_ffff + b * 0xffff_ffff_ffff_ffff == (a + b) * 0xffff_ffff_ffff_ffff) by (nonlinear_arith);
}

/// A feasible `j`-segment partition has `cuts[j] >= j`.
proof fn lemma_cuts_lower(costs: Seq<CostRow>, cuts: Seq<int>, kernels: Seq<int>, j: int)
    requires
        part_feasible(costs, cuts, kernels, j),
    ensures
        cuts[j] >= j,
    decreases j,
{
    if j > 0 {
        assert(part_feasible(costs, cuts, kernels, j - 1));
        lemma_cuts_lower(costs, cuts, kernels, j - 1);
        assert(cuts[j - 1] < cuts[j]);
    }
}

/// Extending `prev` by kernel `k` over `[start, e)` costs exactly what `st` costs.
spec fn equal_value(st: State, prev: State, costs: Seq<CostRow>, start: int, e: int, k: int) -> bool {
    &&& st.cost.median_sum == prev.cost.median_sum + seg_median(costs, start, e, k)
    &&& st.cost.p95_sum == prev.cost.p95_sum + seg_p95(costs, start, e, k)
}

/// The best state ending at `e` in layer `s`: the cheapest extension of a
/// state of layer `s - 1` by one segment, the first one found on ties.
fn best_state(costs: &[CostRow], prev: &Vec<Option<State>>, s: usize, e: usize) -> (best: Option<State>)
    requires
        1 <= s <= 6,
        s <= e <= costs.len(),
        costs.len() < usize::MAX,
        layer_shape(prev@, s - 1, costs.len() as int),
    ensures
        best is Some ==> state_sound(costs@, prev@, best.unwrap(), e as int) && bounded(best.unwrap(), e as int),
        forall|start: int, k: int|
            #![trigger prev@[start], seg_present(costs@, start, e as int, k)]
            0 <= start < e && 0 <= k < 4 && prev@[start] is Some && seg_present(costs@, start, e as int, k)
                ==> best is Some && state_le(
                best.unwrap(),
                prev@[start].unwrap().cost.median_sum + seg_median(costs@, start, e as int, k),
                prev@[start].unwrap().cost.p95_sum + seg_p95(costs@, start, e as int, k),
            ),
        best is Some ==> forall|start: int, k: int|
            #![trigger prev@[start], seg_present(costs@, start, e as int, k)]
            0 <= start < e && 0 <= k < 4 && prev@[start] is Some && seg_present(costs@, start, e as int, k)
                && equal_value(best.unwrap(), prev@[start].unwrap(), costs@, start, e as int, k)
                ==> search_le(best.unwrap().start as int, best.unwrap().kernel as int, start, k),
{
    let ghost n = costs.len() as int;
    let mut best: Option<State> = None;
    let mut start: usize = s - 1;
    while start < e
        invariant
            1 <= s <= 6,
            s <= e <= costs.len(),
            costs.len() < usize::MAX,
            n == costs.len(),
            s - 1 <= start <= e,
            layer_shape(prev@, s - 1, n),
            best is Some ==> state_sound(costs@, prev@, best.unwrap(), e as int) && bounded(best.unwrap(), e as int),
            forall|st: int, k: int|
                #![trigger prev@[st], seg_present(costs@, st, e as int, k)]
                0 <= st < start && 0 <= k < 4 && prev@[st] is Some && seg_present(costs@, st, e as int, k)
                    ==> best is Some && state_le(
                    best.unwrap(),
                    prev@[st].unwrap().cost.median_sum + seg_median(costs@, st, e as int, k),
                    prev@[st].unwrap().cost.p95_sum + seg_p95(costs@, st, e as int, k),
                ),
            best is Some ==> best.unwrap().start < start,
            best is Some ==> forall|st: int, k: int|
                #![trigger prev@[st], seg_present(costs@, st, e as int, k)]
                0 <= st < start && 0 <= k < 4 && prev@[st] is Some && seg_present(costs@, st, e as int, k)
                    && equal_value(best.unwrap(), prev@[st].unwrap(), costs@, st, e as int, k)
                    ==> search_le(best.unwrap().start as int, best.unwrap().kernel as int, st, k),
        decreases e - start,
    {
        let previous = prev[start];
        if let Some(previous) = previous {
            let mut kernel: usize = 0;
            while kernel < 4
                invariant
                    1 <= s <= 6,
                    s <= e <= costs.len(),
                    costs.len() < usize::MAX,
                    n == costs.len(),
                    s - 1 <= start < e,
                    kernel <= 4,
                    layer_shape(prev@, s - 1, n),
                    prev@[start as int] == Some(previous),
                    best is Some ==> state_sound(costs@, prev@, best.unwrap(), e as int) && bounded(best.unwrap(), e as int),
                    forall|st: int, k: int|
                        #![trigger prev@[st], seg_present(costs@, st, e as int, k)]
                        0 <= st < start && 0 <= k < 4 && prev@[st] is Some && seg_present(costs@, st, e as int, k)
                            ==> best is Some && state_le(
                            best.unwrap(),
                            prev@[st].unwrap().cost.median_sum + seg_median(costs@, st, e as int, k),
                            prev@[st].unwrap().cost.p95_sum + seg_p95(costs@, st, e as int, k),
                        ),
                    forall|k: int|
                        #![trigger seg_present(costs@, start as int, e as int, k)]
                        0 <= k < kernel && seg_present(costs@, start as int, e as int, k)
                            ==> best is Some && state_le(
                            best.unwrap(),
                            previous.cost.median_sum + seg_median(costs@, start as int, e as int, k),
                            previous.cost.p95_sum + seg_p95(costs@, start as int, e as int, k),
                        ),
                    best is Some ==> best.unwrap().start < start || (best.unwrap().start == start
                        && best.unwrap().kernel < kernel),
                    best is Some ==> forall|st: int, k: int|
                        #![trigger prev@[st], seg_present(costs@, st, e as int, k)]
                        0 <= st < start && 0 <= k < 4 && prev@[st] is Some && seg_present(costs@, st, e as int, k)
                            && equal_value(best.unwrap(), prev@[st].unwrap(), costs@, st, e as int, k)
                            ==> search_le(best.unwrap().start as int, best.unwrap().kernel as int, st, k),
                    best is Some ==> forall|k: int|
                        #![trigger seg_present(costs@, start as int, e as int, k)]
                        0 <= k < kernel && seg_present(costs@, start as int, e as int, k)
                            && equal_value(best.unwrap(), previous, costs@, start as int, e as int, k)
                            ==> search_le(best.unwrap().start as int, best.unwrap().kernel as int, start as int, k),
                decreases 4 - kernel,
            {
                if let Some(segment) = segment_cost(costs, start, e, kernel) {
                    proof {
                        assert(bounded(previous, start as int));
                        lemma_seg_bounds(costs@, start as int, e as int, kernel as int);
                        lemma_sum_bound_add(start as int, e - start);
                        lemma_sum_bound_fits(e as int);
                    }
                    let candidate = State {
                        cost: ProfileCost {
                            median_sum: previous.cost.median_sum + segment.median_sum,
                            p95_sum: previous.cost.p95_sum + segment.p95_sum,
                        },
                        start,
                        kernel,
                    };
                    let replace = match best {
                        None => true,
                        Some(current) => candidate.cost.less_than(current.cost),
                    };
                    if replace {
                        best = Some(candidate);
                    }
                }
                kernel = kernel + 1;
            }
        }
        start = start + 1;
    }
    best
}

/// Builds layer `s` of the partition search from layer `s - 1`.
fn build_layer(costs: &[CostRow], prev: &Vec<Option<State>>, s: usize) -> (row: Vec<Option<State>>)
    requires
        1 <= s <= 6,
        6 <= costs.len() < usize::MAX,
        layer_shape(prev@, s - 1, costs.len() as int),
        layer_complete(costs@, prev@, s - 1, costs.len() as int),
    ensures
        layer_shape(row@, s as int, costs.len() as int),
        layer_sound(costs@, prev@, row@, costs.len() as int),
        layer_complete(costs@, row@, s as int, costs.len() as int),
        layer_ties(costs@, row@, s as int, costs.len() as int),
{
    let n = costs.len();
    let min_end = s;
    let max_end = n - (PROFILE_CLASSES - s);
    let mut row: Vec<Option<State>> = Vec::new();
    let mut e: usize = 0;
    while e <= n
        invariant
            1 <= s <= 6,
            6 <= n == costs.len() < usize::MAX,
            min_end == s,
            max_end == n - (6 - s),
            e <= n + 1,
            row.len() == e,
            layer_shape(prev@, s - 1, n as int),
            layer_complete(costs@, prev@, s - 1, n as int),
            forall|i: int| 0 <= i < e && (i < s || i > n - (6 - s)) ==> (#[trigger] row@[i]) is None,
            forall|i: int| 0 <= i < e && (#[trigger] row@[i]) is Some ==> bounded(row@[i].unwrap(), i),
            forall|i: int| 0 <= i < e && (#[trigger] row@[i]) is Some ==> state_sound(costs@, prev@, row@[i].unwrap(), i),
            layer_complete_upto(costs@, row@, s as int, n as int, e as int),
            layer_ties_upto(costs@, row@, s as int, n as int, e as int),
        decreases n + 1 - e,
    {
        let ghost old_row = row@;
        if e < min_end || e > max_end {
            row.push(None);
            proof {
                assert forall|cuts: Seq<int>, kernels: Seq<int>|
                    #[trigger] part_feasible(costs@, cuts, kernels, s as int) && cuts[s as int] <= n - (6 - s)
                        && cuts[s as int] < e + 1 implies row@[cuts[s as int]] is Some && state_le(
                    row@[cuts[s as int]].unwrap(),
                    part_median(costs@, cuts, kernels, s as int),
                    part_p95(costs@, cuts, kernels, s as int),
                ) by {
                    lemma_cuts_lower(costs@, cuts, kernels, s as int);
                    assert(old_row[cuts[s as int]] == row@[cuts[s as int]]);
                }
                assert forall|cuts: Seq<int>, kernels: Seq<int>|
                    #[trigger] part_feasible(costs@, cuts, kernels, s as int) && 1 <= s && cuts[s as int] <= n - (6 - s)
                        && cuts[s as int] < e + 1 && row@[cuts[s as int]] is Some && part_median(costs@, cuts, kernels, s as int)
                        == row@[cuts[s as int]].unwrap().cost.median_sum && part_p95(costs@, cuts, kernels, s as int)
                        == row@[cuts[s as int]].unwrap().cost.p95_sum implies search_le(
                    row@[cuts[s as int]].unwrap().start as int,
                    row@[cuts[s as int]].unwrap().kernel as int,
                    cuts[s - 1],
                    kernels[s - 1],
                ) by {
                    lemma_cuts_lower(costs@, cuts, kernels, s as int);
                    assert(old_row[cuts[s as int]] == row@[cuts[s as int]]);
                }
            }
        } else {
            let best = best_state(costs, prev, s, e);
            row.push(best);
            proof {
                assert forall|cuts: Seq<int>, kernels: Seq<int>|
                    #[trigger] part_feasible(costs@, cuts, kernels, s as int) && cuts[s as int] <= n - (6 - s)
                        && cuts[s as int] < e + 1 implies row@[cuts[s as int]] is Some && state_le(
                    row@[cuts[s as int]].unwrap(),
                    part_median(costs@, cuts, kernels, s as int),
                    part_p95(costs@, cuts, kernels, s as int),
                ) by {
                    let j = s as int;
                    if cuts[j] < e {
                        assert(old_row[cuts[j]] == row@[cuts[j]]);
                    } else {
                        let st = cuts[j - 1];
                        let k = kernels[j - 1];
                        assert(part_feasible(costs@, cuts, kernels, j - 1));
                        lemma_cuts_lower(costs@, cuts, kernels, j - 1);
                        assert(cuts[j - 1] < cuts[j]);
                        assert(prev@[st] is Some);
                        assert(seg_present(costs@, st, e as int, k));
                        assert(row@[e as int] == best);
                    }
                }
                assert forall|cuts: Seq<int>, kernels: Seq<int>|
                    #[trigger] part_feasible(costs@, cuts, kernels, s as int) && 1 <= s && cuts[s as int] <= n - (6 - s)
                        && cuts[s as int] < e + 1 && row@[cuts[s as int]] is Some && part_median(costs@, cuts, kernels, s as int)
                        == row@[cuts[s as int]].unwrap().cost.median_sum && part_p95(costs@, cuts, kernels, s as int)
                        == row@[cuts[s as int]].unwrap().cost.p95_sum implies search_le(
                    row@[cuts[s as int]].unwrap().start as int,
                    row@[cuts[s as int]].unwrap().kernel as int,
                    cuts[s - 1],
                    kernels[s - 1],
                ) by {
                    let j = s as int;
                    if cuts[j] < e {
                        assert(old_row[cuts[j]] == row@[cuts[j]]);
                    } else {
                        let st = cuts[j - 1];
                        let k = kernels[j - 1];
                        assert(part_feasible(costs@, cuts, kernels, j - 1));
                        lemma_cuts_lower(costs@, cuts, kernels, j - 1);
                        assert(cuts[j - 1] < cuts[j]);
                        assert(prev@[st] is Some);
                        assert(state_le(
                            prev@[st].unwrap(),
                            part_median(costs@, cuts, kernels, j - 1),
                            part_p95(costs@, cuts, kernels, j - 1),
                        ));
                        assert(seg_present(costs@, st, e as int, k));
                        assert(row@[e as int] == best);
                        let b = best.unwrap();
                        assert(state_le(
                            b,
                            prev@[st].unwrap().cost.median_sum + seg_median(costs@, st, e as int, k),
                            prev@[st].unwrap().cost.p95_sum + seg_p95(costs@, st, e as int, k),
                        ));
                        assert(equal_value(b, prev@[st].unwrap(), costs@, st, e as int, k));
                    }
                }
            }
        }
        e = e + 1;
    }
    row
}

/// Layers `0..count` of the partition search are built.
#[verifier::opaque]
spec fn layers_ok(costs: Seq<CostRow>, dp: Seq<Vec<Option<State>>>, count: int, n: int) -> bool {
    &&& 1 <= dp.len() == count
    &&& layer_zero(dp[0]@, n)
    &&& forall|j: int| 0 <= j < count ==> layer_shape(#[trigger] dp[j]@, j, n)
    &&& forall|j: int| 0 <= j < count ==> layer_complete(costs, #[trigger] dp[j]@, j, n)
    &&& forall|j: int| 1 <= j < count ==> layer_sound(costs, dp[j - 1]@, #[trigger] dp[j]@, n)
    &&& forall|j: int| 1 <= j < count ==> layer_ties(costs, #[trigger] dp[j]@, j, n)
}

/// Following the recorded starts back from the last layer yields a feasible
/// partition whose cost is the cost of the state it ends at.
proof fn lemma_reconstruct(
    costs: Seq<CostRow>,
    dp: Seq<Vec<Option<State>>>,
    cuts: Seq<int>,
    kernels: Seq<int>,
    j: int,
    n: int,
)
    requires
        0 <= j <= 6,
        layers_ok(costs, dp, 7, n),
        cuts.len() == 7,
        kernels.len() == 6,
        cuts[0] == 0,
        forall|i: int|
            1 <= i <= j ==> 0 <= #[trigger] cuts[i] <= n && dp[i]@[cuts[i]] is Some
                && dp[i]@[cuts[i]].unwrap().start == cuts[i - 1] && dp[i]@[cuts[i]].unwrap().kernel
                == kernels[i - 1],
    ensures
        part_feasible(costs, cuts, kernels, j),
        dp[j]@[cuts[j]] is Some,
        dp[j]@[cuts[j]].unwrap().cost.median_sum == part_median(costs, cuts, kernels, j),
        dp[j]@[cuts[j]].unwrap().cost.p95_sum == part_p95(costs, cuts, kernels, j),
    decreases j,
{
    reveal(layers_ok);
    if j > 0 {
        lemma_reconstruct(costs, dp, cuts, kernels, j - 1, n);
        assert(cuts[j] == cuts[j]);
        assert(layer_sound(costs, dp[j - 1]@, dp[j]@, n));
        let st = dp[j]@[cuts[j]].unwrap();
        assert(state_sound(costs, dp[j - 1]@, st, cuts[j]));
        assert forall|t: int| 0 <= t < j implies #[trigger] cuts[t] < cuts[t + 1] by {
            if t == j - 1 {
            }
        }
        assert forall|t: int| 0 <= t < j implies 0 <= #[trigger] kernels[t] < 4 by {
            if t == j - 1 {
            }
        }
        assert forall|t: int| 0 <= t < j implies seg_present(costs, cuts[t], cuts[t + 1], #[trigger] kernels[t]) by {
            if t == j - 1 {
            }
        }
    }
}

/// The recorded path is first in search order among the `j`-segment
/// partitions that end where it ends and cost what its state costs.
proof fn lemma_traced_first(
    costs: Seq<CostRow>,
    dp: Seq<Vec<Option<State>>>,
    cuts: Seq<int>,
    kernels: Seq<int>,
    c2: Seq<int>,
    k2: Seq<int>,
    j: int,
    n: int,
)
    requires
        0 <= j <= 6,
        layers_ok(costs, dp, 7, n),
        cuts.len() == 7,
        kernels.len() == 6,
        cuts[0] == 0,
        forall|i: int|
            1 <= i <= j ==> 0 <= #[trigger] cuts[i] <= n && dp[i]@[cuts[i]] is Some
                && dp[i]@[cuts[i]].unwrap().start == cuts[i - 1] && dp[i]@[cuts[i]].unwrap().kernel
                == kernels[i - 1],
        part_feasible(costs, c2, k2, j),
        c2[j] == cuts[j],
        part_median(costs, c2, k2, j) == dp[j]@[cuts[j]].unwrap().cost.median_sum,
        part_p95(costs, c2, k2, j) == dp[j]@[cuts[j]].unwrap().cost.p95_sum,
    ensures
        segments_first(cuts, kernels, c2, k2, j),
    decreases j,
{
    reveal(layers_ok);
    if j > 0 {
        lemma_reconstruct(costs, dp, cuts, kernels, j, n);
        let st = dp[j]@[cuts[j]].unwrap();
        assert(layer_ties(costs, dp[j]@, j, n));
        assert(layer_shape(dp[j]@, j, n));
        assert(cuts[j] <= n - (6 - j));
        assert(search_le(st.start as int, st.kernel as int, c2[j - 1], k2[j - 1]));
        if cuts[j - 1] == c2[j - 1] && kernels[j - 1] == k2[j - 1] {
            assert(layer_sound(costs, dp[j - 1]@, dp[j]@, n));
            assert(state_sound(costs, dp[j - 1]@, st, cuts[j]));
            assert(part_feasible(costs, c2, k2, j - 1));
            lemma_reconstruct(costs, dp, cuts, kernels, j - 1, n);
            lemma_traced_first(costs, dp, cuts, kernels, c2, k2, j - 1, n);
        }
    }
}

/// Index of a kernel in the profile search order.
fn kernel_at_index(k: usize) -> (kernel: BpeKernel)
    requires
        k < 4,
    ensures
        kernel == kernel_at(k as int),
{
    if k == 0 {
        BpeKernel::Reference
    } else if k == 1 {
        BpeKernel::TinyScan
    } else if k == 2 {
        BpeKernel::Indexed
    } else {
        BpeKernel::Heap
    }
}

/// Class boundary just before the probe length at `cut`.
fn class_boundary(lengths: &[usize], cut: usize) -> (b: usize)
    requires
        1 <= cut < lengths.len(),
        lengths[cut - 1] < lengths[cut as int],
    ensures
        b == midpoint(lengths[cut - 1] as int, lengths[cut as int] as int),
        lengths[cut - 1] <= b < lengths[cut as int],
{
    let left = lengths[cut - 1];
    let right = lengths[cut];
    left + (right - left) / 2
}

/// Cut positions as integers.
spec fn as_cuts(cuts: Seq<usize>) -> Seq<int> {
    Seq::new(7, |j: int| cuts[j] as int)
}

/// Kernel positions as integers.
spec fn as_kernels(kernels: Seq<usize>) -> Seq<int> {
    Seq::new(6, |j: int| kernels[j] as int)
}

/// Builds the seven layers of the partition search.
fn search_layers(costs: &[CostRow]) -> (dp: Vec<Vec<Option<State>>>)
    requires
        6 <= costs.len() < usize::MAX,
    ensures
        layers_ok(costs@, dp@, 7, costs.len() as int),
        dp.len() == 7,
        dp@[6].len() == costs.len() + 1,
        dp@[6]@[costs.len() as int] is None ==> !has_full_partition(costs@),
{
    let n = costs.len();
    reveal(layers_ok);
    let mut row0: Vec<Option<State>> = Vec::new();
    row0.push(Some(State { cost: ProfileCost { median_sum: 0, p95_sum: 0 }, start: 0, kernel: 0 }));
    let mut e: usize = 0;
    while e < n
        invariant
            e <= n,
            row0.len() == e + 1,
            row0@[0] == Some(zero_state()),
            forall|i: int| 0 < i <= e ==> (#[trigger] row0@[i]) is None,
        decreases n - e,
    {
        row0.push(None);
        e = e + 1;
    }
    proof {
        assert(layer_zero(row0@, n as int));
        assert forall|cuts: Seq<int>, kernels: Seq<int>|
            #[trigger] part_feasible(costs@, cuts, kernels, 0) && cuts[0] <= n - 6 && cuts[0] < n + 1
                implies row0@[cuts[0]] is Some && state_le(
            row0@[cuts[0]].unwrap(),
            part_median(costs@, cuts, kernels, 0),
            part_p95(costs@, cuts, kernels, 0),
        ) by {
        }
    }
    let mut dp: Vec<Vec<Option<State>>> = Vec::new();
    dp.push(row0);
    let mut s: usize = 1;
    while s <= PROFILE_CLASSES
        invariant
            1 <= s <= 7,
            6 <= n == costs.len() < usize::MAX,
            layers_ok(costs@, dp@, s as int, n as int),
        decreases 7 - s,
    {
        reveal(layers_ok);
        assert(layer_shape(dp@[s - 1]@, s - 1, n as int));
        assert(layer_complete(costs@, dp@[s - 1]@, s - 1, n as int));
        let row = build_layer(costs, &dp[s - 1], s);
        let ghost old_dp = dp@;
        dp.push(row);
        proof {
            assert forall|j: int| 0 <= j < s + 1 implies layer_shape(#[trigger] dp@[j]@, j, n as int) by {
                if j < s {
                    assert(dp@[j] == old_dp[j]);
                }
            }
            assert forall|j: int| 0 <= j < s + 1 implies layer_complete(costs@, #[trigger] dp@[j]@, j, n as int) by {
                if j < s {
                    assert(dp@[j] == old_dp[j]);
                }
            }
            assert forall|j: int| 1 <= j < s + 1 implies layer_ties(costs@, #[trigger] dp@[j]@, j, n as int) by {
                if j < s {
                    assert(dp@[j] == old_dp[j]);
                }
            }
            assert forall|j: int| 1 <= j < s + 1 implies layer_sound(costs@, dp@[j - 1]@, #[trigger] dp@[j]@, n as int) by {
                if j < s {
                    assert(dp@[j] == old_dp[j]);
                    assert(dp@[j - 1] == old_dp[j - 1]);
                } else {
                    assert(dp@[j - 1] == old_dp[j - 1]);
                }
            }
        }
        s = s + 1;
    }
    proof {
        assert(layer_complete(costs@, dp@[6]@, 6, n as int));
        assert(layer_shape(dp@[6]@, 6, n as int));
        if has_full_partition(costs@) {
            let (c, k) = choose|c: Seq<int>, k: Seq<int>| is_full_partition(costs@, c, k);
            assert(part_feasible(costs@, c, k, 6));
        }
    }
    dp
}

/// Follows the recorded starts back from the full-length state of the last
/// layer; the cuts and kernels found form an optimal six-class partition.
fn trace_back(costs: &[CostRow], dp: &Vec<Vec<Option<State>>>) -> (result: (Vec<usize>, Vec<usize>))
    requires
        6 <= costs.len() < usize::MAX,
        layers_ok(costs@, dp@, 7, costs.len() as int),
        dp@[6]@[costs.len() as int] is Some,
    ensures
        result.0.len() == 7,
        result.1.len() == 6,
        is_chosen_partition(costs@, as_cuts(result.0@), as_kernels(result.1@)),
{
    let n = costs.len();
    reveal(layers_ok);
    let mut cut_vals: Vec<usize> = Vec::new();
    let mut kernel_vals: Vec<usize> = Vec::new();
    let mut i: usize = 0;
    while i < PROFILE_CLASSES
        invariant
            i <= 6,
            cut_vals.len() == i,
            kernel_vals.len() == i,
        decreases 6 - i,
    {
        cut_vals.push(0);
        kernel_vals.push(0);
        i = i + 1;
    }
    cut_vals.push(n);
    let mut count: usize = PROFILE_CLASSES;
    let mut end: usize = n;
    while count > 0
        invariant
            count <= 6,
            6 <= n == costs.len() < usize::MAX,
            layers_ok(costs@, dp@, 7, n as int),
            cut_vals.len() == 7,
            kernel_vals.len() == 6,
            cut_vals@[6] == n,
            end == cut_vals@[count as int],
            end <= n,
            dp@[count as int]@[end as int] is Some,
            forall|j: int|
                count < j <= 6 ==> (#[trigger] cut_vals@[j]) <= n && dp@[j]@[cut_vals@[j] as int] is Some
                    && dp@[j]@[cut_vals@[j] as int].unwrap().start == cut_vals@[j - 1]
                    && dp@[j]@[cut_vals@[j] as int].unwrap().kernel == kernel_vals@[j - 1],
        decreases count,
    {
        reveal(layers_ok);
        let row: &Vec<Option<State>> = &dp[count];
        assert(layer_sound(costs@, dp@[count - 1]@, dp@[count as int]@, n as int));
        assert(layer_shape(dp@[count - 1]@, count - 1, n as int));
        let state = row[end].unwrap();
        assert(state_sound(costs@, dp@[count - 1]@, state, end as int));
        cut_vals.set(count - 1, state.start);
        kernel_vals.set(count - 1, state.kernel);
        end = state.start;
        count = count - 1;
    }
    let ghost wc = as_cuts(cut_vals@);
    let ghost wk = as_kernels(kernel_vals@);
    proof {
        assert(wc[0] == 0);
        assert forall|j: int| 1 <= j <= 6 implies 0 <= #[trigger] wc[j] <= n && dp@[j]@[wc[j]] is Some
            && dp@[j]@[wc[j]].unwrap().start == wc[j - 1] && dp@[j]@[wc[j]].unwrap().kernel == wk[j - 1] by {
            assert(cut_vals@[j] <= n);
        }
        lemma_reconstruct(costs@, dp@, wc, wk, 6, n as int);
        assert(is_full_partition(costs@, wc, wk));
        assert(layer_complete(costs@, dp@[6]@, 6, n as int));
        assert forall|c2: Seq<int>, k2: Seq<int>| #[trigger] is_full_partition(costs@, c2, k2) implies cost_le(
            part_median(costs@, wc, wk, 6),
            part_p95(costs@, wc, wk, 6),
            part_median(costs@, c2, k2, 6),
            part_p95(costs@, c2, k2, 6),
        ) by {
            assert(part_feasible(costs@, c2, k2, 6));
        }
        assert forall|c2: Seq<int>, k2: Seq<int>| #[trigger] is_optimal_partition(costs@, c2, k2) implies segments_first(
            wc,
            wk,
            c2,
            k2,
            6,
        ) by {
            assert(is_full_partition(costs@, c2, k2));
            assert(is_full_partition(costs@, wc, wk));
            lemma_traced_first(costs@, dp@, wc, wk, c2, k2, 6, n as int);
        }
    }
    (cut_vals, kernel_vals)
}

/// The profile a full partition describes.
fn profile_from_partition(lengths: &[usize], costs: &[CostRow], cut_vals: &Vec<usize>, kernel_vals: &Vec<usize>) -> (profile: ElasticProfile)
    requires
        lengths.len() == costs.len(),
        strictly_sorted(lengths@),
        cut_vals.len() == 7,
        kernel_vals.len() == 6,
        is_full_partition(costs@, as_cuts(cut_vals@), as_kernels(kernel_vals@)),
    ensures
        partition_profile(lengths@, as_cuts(cut_vals@), as_kernels(kernel_vals@), profile),
{
    let ghost wc = as_cuts(cut_vals@);
    let ghost wk = as_kernels(kernel_vals@);
    proof {
        let c = wc;
        assert(part_feasible(costs@, c, wk, 6));
        assert(c[0] < c[1]);
        assert(c[1] < c[2]);
        assert(c[2] < c[3]);
        assert(c[3] < c[4]);
        assert(c[4] < c[5]);
        assert(c[5] < c[6]);
        assert(0 <= wk[0] < 4 && 0 <= wk[1] < 4 && 0 <= wk[2] < 4);
        assert(0 <= wk[3] < 4 && 0 <= wk[4] < 4 && 0 <= wk[5] < 4);
    }
    let b0 = class_boundary(lengths, cut_vals[1]);
    let b1 = class_boundary(lengths, cut_vals[2]);
    let b2 = class_boundary(lengths, cut_vals[3]);
    let b3 = class_boundary(lengths, cut_vals[4]);
    let b4 = class_boundary(lengths, cut_vals[5]);
    proof {
        assert(lengths@[cut_vals@[1] as int] <= lengths@[cut_vals@[2] - 1]);
        assert(lengths@[cut_vals@[2] as int] <= lengths@[cut_vals@[3] - 1]);
        assert(lengths@[cut_vals@[3] as int] <= lengths@[cut_vals@[4] - 1]);
        assert(lengths@[cut_vals@[4] as int] <= lengths@[cut_vals@[5] - 1]);
    }
    let kernels = [
        kernel_at_index(kernel_vals[0]),
        kernel_at_index(kernel_vals[1]),
        kernel_at_index(kernel_vals[2]),
        kernel_at_index(kernel_vals[3]),
        kernel_at_index(kernel_vals[4]),
        kernel_at_index(kernel_vals[5]),
    ];
    assert(ElasticThresholds::is_strictly_increasing(b0, b1, b2, b3, b4));
    let thresholds = ElasticThresholds { s_max: b0, m_max: b1, l_max: b2, xl_max: b3, xxl_max: b4 };
    let profile = ElasticProfile::new(thresholds, kernels);
    proof {
        assert(partition_profile(lengths@, wc, wk, profile));
    }
    profile
}

/// Some measurement of `kernel` at `piece_len` failed the oracle comparison.
pub open spec fn is_disqualified(ms: Seq<CalibrationMeasurement>, piece_len: usize, kernel: BpeKernel) -> bool {
    exists|i: int|
        0 <= i < ms.len() && (#[trigger] ms[i]).piece_len == piece_len && ms[i].kernel == kernel
            && !ms[i].semantic_match
}

/// Samples kept for `(piece_len, kernel)`: none when the pair is
/// disqualified, else its semantically matching samples in input order.
pub open spec fn kept_samples(ms: Seq<CalibrationMeasurement>, piece_len: usize, kernel: BpeKernel) -> Seq<int> {
    if is_disqualified(ms, piece_len, kernel) {
        Seq::empty()
    } else {
        valid_samples(ms, piece_len, kernel)
    }
}

/// Integer timing samples grouped by probe length and kernel.
#[derive(Clone, Debug)]
pub struct GroupedTimings {
    /// Distinct probe lengths, ascending.
    pub lengths: Vec<usize>,
    /// `samples[i][k]`: kept samples of kernel `k` (tie-break order) at `lengths[i]`.
    pub samples: Vec<Vec<Vec<u64>>>,
}

/// Whether some measurement of `kernel` at `piece_len` failed the oracle.
fn has_mismatch(ms: &[CalibrationMeasurement], piece_len: usize, kernel: BpeKernel) -> (found: bool)
    ensures
        found == is_disqualified(ms@, piece_len, kernel),
{
    let mut i: usize = 0;
    while i < ms.len()
        invariant
            i <= ms.len(),
            forall|j: int|
                0 <= j < i ==> !((#[trigger] ms@[j]).piece_len == piece_len && ms@[j].kernel == kernel
                    && !ms@[j].semantic_match),
        decreases ms.len() - i,
    {
        let m = ms[i];
        if m.piece_len == piece_len && m.kernel == kernel && !m.semantic_match {
            return true;
        }
        i = i + 1;
    }
    false
}

/// Distinct probe lengths of the measurements, ascending.
fn distinct_lengths(ms: &[CalibrationMeasurement]) -> (lengths: Vec<usize>)
    ensures
        strictly_sorted(lengths@),
        forall|l: usize| lengths@.contains(l) <==> is_probed(ms@, l),
{
    let mut lengths: Vec<usize> = Vec::new();
    let mut above: Option<usize> = None;
    loop
        invariant_except_break
            strictly_sorted(lengths@),
            forall|i: int| 0 <= i < lengths.len() ==> is_probed(ms@, #[trigger] lengths@[i]),
            forall|i: int| 0 <= i < lengths.len() ==> !is_above(above, #[trigger] lengths@[i]),
            forall|l: usize| is_probed(ms@, l) && !is_above(above, l) ==> lengths@.contains(l),
            above is None ==> lengths.len() == 0,
        ensures
            strictly_sorted(lengths@),
            forall|l: usize| lengths@.contains(l) <==> is_probed(ms@, l),
        decreases (match above {
            Some(a) => usize::MAX - a,
            None => usize::MAX + 1,
        }),
    {
        match next_length(ms, above) {
            None => {
                proof {
                    assert forall|l: usize| lengths@.contains(l) implies is_probed(ms@, l) by {
                        let i = choose|i: int| 0 <= i < lengths.len() && lengths@[i] == l;
                    }
                    assert forall|l: usize| is_probed(ms@, l) implies lengths@.contains(l) by {
                        assert(!is_above(above, l));
                    }
                }
                break;
            },
            Some(l) => {
                let ghost old_lengths = lengths@;
                lengths.push(l);
                proof {
                    assert forall|a: int, b: int| 0 <= a < b < lengths.len() implies lengths@[a] < lengths@[b] by {
                        if b == old_lengths.len() {
                            assert(!is_above(above, old_lengths[a]));
                        }
                    }
                    assert forall|i: int| 0 <= i < lengths.len() implies !is_above(Some(l), #[trigger] lengths@[i]) by {
                        if i < old_lengths.len() {
                            assert(!is_above(above, old_lengths[i]));
                        }
                    }
                    assert forall|l2: usize| is_probed(ms@, l2) && !is_above(Some(l), l2) implies lengths@.contains(l2) by {
                        if !is_above(above, l2) {
                            let i = choose|i: int| 0 <= i < old_lengths.len() && old_lengths[i] == l2;
                            assert(lengths@[i] == l2);
                        } else {
                            assert(lengths@[old_lengths.len() as int] == l2);
                        }
                    }
                }
                above = Some(l);
            },
        }
    }
    lengths
}

/// Valid timings grouped by probe length and kernel: the integer part of
/// robust profile fitting. Every probed length is listed, including lengths
/// whose measurements all failed the oracle comparison; a `(length, kernel)`
/// pair with any failed comparison keeps no samples.
pub fn group_valid_timings(measurements: &[CalibrationMeasurement]) -> (result: Result<GroupedTimings, ProfileFitError>)
    ensures
        measurements.len() == 0 <==> result == Err::<GroupedTimings, ProfileFitError>(ProfileFitError::NoMeasurements),
        measurements.len() > 0 <==> result is Ok,
        match result {
            Ok(g) => {
                &&& strictly_sorted(g.lengths@)
                &&& forall|l: usize| g.lengths@.contains(l) <==> is_probed(measurements@, l)
                &&& g.samples.len() == g.lengths.len()
                &&& forall|i: int| 0 <= i < g.samples.len() ==> (#[trigger] g.samples@[i]).len() == 4
                &&& forall|i: int, k: int|
                    0 <= i < g.samples.len() && 0 <= k < 4 ==> as_ints((#[trigger] g.samples@[i]@[k])@)
                        == kept_samples(measurements@, g.lengths@[i], kernel_at(k))
            },
            Err(_) => true,
        },
{
    if measurements.len() == 0 {
        return Err(ProfileFitError::NoMeasurements);
    }
    let lengths = distinct_lengths(measurements);
    let mut samples: Vec<Vec<Vec<u64>>> = Vec::new();
    let mut i: usize = 0;
    while i < lengths.len()
        invariant
            i <= lengths.len(),
            samples.len() == i,
            forall|j: int| 0 <= j < i ==> (#[trigger] samples@[j]).len() == 4,
            forall|j: int, k: int|
                0 <= j < i && 0 <= k < 4 ==> as_ints((#[trigger] samples@[j]@[k])@) == kept_samples(
                    measurements@,
                    lengths@[j],
                    kernel_at(k),
                ),
        decreases lengths.len() - i,
    {
        let piece_len = lengths[i];
        let mut row: Vec<Vec<u64>> = Vec::new();
        let mut k: usize = 0;
        while k < 4
            invariant
                k <= 4,
                row.len() == k,
                forall|j: int| 0 <= j < k ==> as_ints((#[trigger] row@[j])@) == kept_samples(
                    measurements@,
                    piece_len,
                    kernel_at(j),
                ),
            decreases 4 - k,
        {
            let kernel = kernel_at_index(k);
            let kept = if has_mismatch(measurements, piece_len, kernel) {
                let empty: Vec<u64> = Vec::new();
                assert(as_ints(empty@) =~= Seq::<int>::empty());
                empty
            } else {
                collect_samples(measurements, piece_len, kernel)
            };
            row.push(kept);
            k = k + 1;
        }
        samples.push(row);
        i = i + 1;
    }
    Ok(GroupedTimings { lengths, samples })
}

/// Builds one six-class hardware-local execution profile.
pub struct ElasticProfileFitter;

impl ElasticProfileFitter {
    /// Fits the cheapest six-class profile to robust costs.
    ///
    /// `lengths` are the distinct probe lengths in increasing order and
    /// `costs[i][k]` is the robust cost of kernel `k` (in tie-break order) at
    /// `lengths[i]`, or `None` when that kernel has no semantically valid
    /// timing there. Each class is a non-empty run of consecutive probe
    /// lengths served by one kernel with a cost at every length of the run;
    /// the partition minimises the median sum, then the p95 sum. Each class
    /// boundary is the floor midpoint between the last length of one class and
    /// the first length of the next.
    pub fn fit_robust_costs(lengths: &[usize], costs: &[CostRow]) -> (result: Result<ElasticProfile, ProfileFitError>)
        requires
            lengths.len() == costs.len() < usize::MAX,
            strictly_sorted(lengths@),
        ensures
            lengths.len() < 6 ==> result == Err::<ElasticProfile, ProfileFitError>(
                ProfileFitError::NotEnoughProbeLengths { found: lengths.len() },
            ),
            lengths.len() >= 6 && !has_full_partition(costs@) ==> result == Err::<
                ElasticProfile,
                ProfileFitError,
            >(ProfileFitError::NoFeasibleSixClassProfile),
            has_full_partition(costs@) ==> result is Ok,
            match result {
                Ok(p) => exists|cuts: Seq<int>, kernels: Seq<int>|
                    is_chosen_partition(costs@, cuts, kernels) && partition_profile(
                        lengths@,
                        cuts,
                        kernels,
                        p,
                    ),
                Err(_) => true,
            },
    {
        let n = lengths.len();
        if n < PROFILE_CLASSES {
            proof {
                if has_full_partition(costs@) {
                    let (c, k) = choose|c: Seq<int>, k: Seq<int>| is_full_partition(costs@, c, k);
                    lemma_cuts_lower(costs@, c, k, 6);
                }
            }
            return Err(ProfileFitError::NotEnoughProbeLengths { found: n });
        }
        let dp = search_layers(costs);
        let last_row: &Vec<Option<State>> = &dp[PROFILE_CLASSES];
        if last_row[n].is_none() {
            return Err(ProfileFitError::NoFeasibleSixClassProfile);
        }
        let (cut_vals, kernel_vals) = trace_back(costs, &dp);
        let profile = profile_from_partition(lengths, costs, &cut_vals, &kernel_vals);
        proof {
            assert(is_chosen_partition(costs@, as_cuts(cut_vals@), as_kernels(kernel_vals@))
                && partition_profile(lengths@, as_cuts(cut_vals@), as_kernels(kernel_vals@), profile));
        }
        Ok(profile)
    }
}

impl ProfileCost {
    fn less_than(self, other: Self) -> (r: bool)
        ensures
            r == (self.median_sum < other.median_sum || (self.median_sum == other.median_sum
                && self.p95_sum < other.p95_sum)),
    {
        self.median_sum < other.median_sum || (self.median_sum == other.median_sum && self.p95_sum
            < other.p95_sum)
    }
}

} // verus!
