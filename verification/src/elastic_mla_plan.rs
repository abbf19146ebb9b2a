//! ElasticMLA RoPE pair selection for SCIAGENT GQA.
//!
//! Selected complete native RoPE pairs remain explicit and preserve their
//! original frequency indices. The complementary key/query channels become
//! NoPE coordinates. Pair `p` owns the interleaved channels `2p` and `2p + 1`.

use vstd::prelude::*;

verus! {

/// Invalid ElasticMLA plan input.
#[derive(Debug, Clone, PartialEq, Eq)]
pub enum ElasticMlaPlanError {
    InvalidTopology(&'static str),
    InvalidRopeDimension { rope_dimensions: usize, d_head: usize },
    RopePairOutOfRange { pair: usize, pair_count: usize },
    RopePairsNotStrictlyIncreasing,
    InvalidRank { name: &'static str, rank: usize, dimension: usize },
    BasisLength { name: &'static str, expected: usize, actual: usize },
    NonFiniteBasis { name: &'static str, index: usize },
    LayerBasisCount { layers: usize, bases: usize },
    WeightShape {
        name: &'static str,
        expected_rows: usize,
        expected_cols: usize,
        actual_rows: usize,
        actual_cols: usize,
    },
    Overflow,
}

/// Every pair index lies below `pair_count` and the indices strictly increase.
pub open spec fn canonical_pairs(pairs: Seq<usize>, pair_count: int) -> bool {
    &&& forall|i: int| 0 <= i < pairs.len() ==> (#[trigger] pairs[i]) < pair_count
    &&& forall|i: int, j: int| 0 <= i < j < pairs.len() ==> #[trigger] pairs[i] < #[trigger] pairs[j]
}

/// Position of the first pair index that is out of range or not above its
/// predecessor (`pairs.len()` when there is none).
pub open spec fn first_bad_pair(pairs: Seq<usize>, pair_count: int) -> int
    decreases pairs.len(),
{
    if pairs.len() == 0 {
        0
    } else {
        let prefix = pairs.drop_last();
        let k = first_bad_pair(prefix, pair_count);
        if k < prefix.len() {
            k
        } else {
            let n = pairs.len() - 1;
            if pairs[n] >= pair_count || (n > 0 && pairs[n] <= pairs[n - 1]) {
                n
            } else {
                pairs.len() as int
            }
        }
    }
}

/// The RoPE channels of the selected pairs, pair by pair.
pub open spec fn rope_channels_of(pairs: Seq<usize>) -> Seq<usize> {
    Seq::new(2 * pairs.len(), |i: int| (2 * pairs[i / 2] + i % 2) as usize)
}

/// `channels` lists, in strictly increasing order, exactly the channels below
/// `d_head` whose pair is not selected.
pub open spec fn is_nope_channels(channels: Seq<usize>, pairs: Seq<usize>, d_head: int) -> bool {
    &&& forall|i: int, j: int|
        0 <= i < j < channels.len() ==> #[trigger] channels[i] < #[trigger] channels[j]
    &&& forall|c: usize|
        channels.contains(c) <==> (c < d_head && !pairs.contains((c / 2) as usize))
}

/// Exact native RoPE pair selection for one head layout.
#[derive(Debug, Clone, PartialEq, Eq)]
pub struct RopePairSelection {
    d_head: usize,
    pairs: Vec<usize>,
    rope_channels: Vec<usize>,
    nope_channels: Vec<usize>,
}

impl RopePairSelection {
    pub closed spec fn spec_d_head(&self) -> usize {
        self.d_head
    }

    pub closed spec fn spec_pairs(&self) -> Seq<usize> {
        self.pairs@
    }

    pub closed spec fn spec_rope_channels(&self) -> Seq<usize> {
        self.rope_channels@
    }

    pub closed spec fn spec_nope_channels(&self) -> Seq<usize> {
        self.nope_channels@
    }

    /// Select explicit native pair indices. Input order is part of the contract and
    /// must already be canonical (strictly increasing).
    pub fn new(d_head: usize, pairs: Vec<usize>) -> (result: Result<Self, ElasticMlaPlanError>)
        ensures
            match result {
                Ok(s) => {
                    &&& d_head > 0 && d_head % 2 == 0
                    &&& canonical_pairs(pairs@, (d_head / 2) as int)
                    &&& s.spec_d_head() == d_head
                    &&& s.spec_pairs() == pairs@
                    &&& s.spec_rope_channels() == rope_channels_of(pairs@)
                    &&& is_nope_channels(s.spec_nope_channels(), pairs@, d_head as int)
                    &&& channel_partition(d_head as int, pairs@, s.spec_rope_channels(), s.spec_nope_channels())
                },
                Err(ElasticMlaPlanError::InvalidTopology(_)) => d_head == 0 || d_head % 2 == 1,
                Err(ElasticMlaPlanError::RopePairOutOfRange { pair, pair_count }) => {
                    &&& d_head > 0 && d_head % 2 == 0
                    &&& pair_count == d_head / 2
                    &&& first_bad_pair(pairs@, (d_head / 2) as int) < pairs.len()
                    &&& pair == pairs@[first_bad_pair(pairs@, (d_head / 2) as int)]
                    &&& pair >= pair_count
                },
                Err(ElasticMlaPlanError::RopePairsNotStrictlyIncreasing) => {
                    &&& d_head > 0 && d_head % 2 == 0
                    &&& first_bad_pair(pairs@, (d_head / 2) as int) < pairs.len()
                    &&& pairs@[first_bad_pair(pairs@, (d_head / 2) as int)] < d_head / 2
                },
                Err(_) => false,
            },
    {
        if d_head == 0 || d_head % 2 != 0 {
            return Err(ElasticMlaPlanError::InvalidTopology("ElasticMLA requires a positive even d_head"));
        }
        let pair_count = d_head / 2;
        let mut previous: Option<usize> = None;
        let mut i: usize = 0;
        assert(pairs@.take(0) =~= Seq::<usize>::empty());
        while i < pairs.len()
            invariant
                i <= pairs.len(),
                d_head > 0,
                d_head % 2 == 0,
                pair_count == d_head / 2,
                first_bad_pair(pairs@.take(i as int), pair_count as int) == i,
                canonical_pairs(pairs@.take(i as int), pair_count as int),
                previous == (if i == 0 {
                    None::<usize>
                } else {
                    Some(pairs@[i - 1])
                }),
            decreases pairs.len() - i,
        {
            let pair = pairs[i];
            let ghost taken = pairs@.take(i + 1);
            assert(taken.drop_last() =~= pairs@.take(i as int));
            assert(taken[i as int] == pair);
            assert(i > 0 ==> taken[i - 1] == pairs@[i - 1]);
            if pair >= pair_count {
                proof {
                    assert(first_bad_pair(taken, pair_count as int) == i);
                    lemma_first_bad_prefix(pairs@, i + 1, pair_count as int);
                }
                return Err(ElasticMlaPlanError::RopePairOutOfRange { pair, pair_count });
            }
            let not_above = match previous {
                Some(value) => pair <= value,
                None => false,
            };
            if not_above {
                proof {
                    assert(first_bad_pair(taken, pair_count as int) == i);
                    lemma_first_bad_prefix(pairs@, i + 1, pair_count as int);
                }
                return Err(ElasticMlaPlanError::RopePairsNotStrictlyIncreasing);
            }
            previous = Some(pair);
            proof {
                assert forall|a: int, b: int| 0 <= a < b < taken.len() implies #[trigger] taken[a]
                    < #[trigger] taken[b] by {
                    if b == i {
                        if a < i - 1 {
                            assert(pairs@.take(i as int)[a] < pairs@.take(i as int)[i - 1]);
                        }
                    } else {
                        assert(pairs@.take(i as int)[a] < pairs@.take(i as int)[b]);
                    }
                }
            }
            i = i + 1;
        }
        assert(pairs@.take(pairs.len() as int) =~= pairs@);
        let mut selected: Vec<bool> = Vec::new();
        let mut p: usize = 0;
        while p < pair_count
            invariant
                p <= pair_count,
                selected.len() == p,
                forall|q: int| 0 <= q < p ==> !selected@[q],
            decreases pair_count - p,
        {
            selected.push(false);
            p = p + 1;
        }
        let mut i: usize = 0;
        while i < pairs.len()
            invariant
                i <= pairs.len(),
                canonical_pairs(pairs@, pair_count as int),
                selected.len() == pair_count,
                forall|q: int|
                    0 <= q < pair_count ==> (selected@[q] <==> pairs@.take(i as int).contains(
                        q as usize,
                    )),
            decreases pairs.len() - i,
        {
            let pair = pairs[i];
            selected.set(pair, true);
            proof {
                assert forall|q: int| 0 <= q < pair_count implies (selected@[q] <==> pairs@.take(
                    i + 1,
                ).contains(q as usize)) by {
                    let before = pairs@.take(i as int);
                    let after = pairs@.take(i + 1);
                    assert(after[i as int] == pair);
                    if before.contains(q as usize) {
                        let j = choose|j: int| 0 <= j < before.len() && #[trigger] before[j] == q as usize;
                        assert(after[j] == q as usize);
                    }
                    if after.contains(q as usize) {
                        let j = choose|j: int| 0 <= j < after.len() && #[trigger] after[j] == q as usize;
                        if j < i {
                            assert(before[j] == q as usize);
                        }
                    }
                }
            }
            i = i + 1;
        }
        assert(pairs@.take(pairs.len() as int) =~= pairs@);
        let mut rope_channels: Vec<usize> = Vec::new();
        let mut nope_channels: Vec<usize> = Vec::new();
        let mut pair: usize = 0;
        let ghost mut taken: int = 0;
        while pair < pair_count
            invariant
                pair <= pair_count,
                pair_count == d_head / 2,
                canonical_pairs(pairs@, pair_count as int),
                selected.len() == pair_count,
                forall|q: int| 0 <= q < pair_count ==> (selected@[q] <==> pairs@.contains(q as usize)),
                0 <= taken <= pairs.len(),
                forall|j: int| 0 <= j < taken ==> pairs@[j] < pair,
                forall|j: int| taken <= j < pairs.len() ==> pairs@[j] >= pair,
                rope_channels@ == rope_channels_of(pairs@.take(taken)),
                forall|a: int, b: int|
                    0 <= a < b < nope_channels@.len() ==> #[trigger] nope_channels@[a]
                        < #[trigger] nope_channels@[b],
                forall|a: int| 0 <= a < nope_channels@.len() ==> #[trigger] nope_channels@[a] < 2 * pair,
                forall|c: usize|
                    nope_channels@.contains(c) <==> (c < 2 * pair && !pairs@.contains(
                        (c / 2) as usize,
                    )),
            decreases pair_count - pair,
        {
            let even = pair * 2;
            if selected[pair] {
                let ghost j = choose|j: int| 0 <= j < pairs@.len() && pairs@[j] == pair;
                proof {
                    assert(j == taken) by {
                        if j < taken {
                            assert(pairs@[j] < pair);
                        }
                        if j > taken {
                            assert(pairs@[taken] < pairs@[j]);
                        }
                    }
                }
                rope_channels.push(even);
                rope_channels.push(even + 1);
                proof {
                    assert(rope_channels@ =~= rope_channels_of(pairs@.take(taken + 1)));
                    taken = taken + 1;
                    assert forall|j: int| taken <= j < pairs.len() implies pairs@[j] >= pair + 1 by {
                        assert(pairs@[taken - 1] < pairs@[j]);
                    }
                    assert forall|c: usize|
                        nope_channels@.contains(c) <==> (c < 2 * (pair + 1) && !pairs@.contains(
                            (c / 2) as usize,
                        )) by {
                        if c >= 2 * pair && c < 2 * (pair + 1) {
                            assert((c / 2) as usize == pair);
                        }
                    }
                }
            } else {
                let ghost before = nope_channels@;
                nope_channels.push(even);
                nope_channels.push(even + 1);
                proof {
                    assert forall|j: int| taken <= j < pairs.len() implies pairs@[j] >= pair + 1 by {
                        if pairs@[j] == pair {
                            assert(pairs@.contains(pair));
                        }
                    }
                    assert forall|c: usize|
                        nope_channels@.contains(c) <==> (c < 2 * (pair + 1) && !pairs@.contains(
                            (c / 2) as usize,
                        )) by {
                        if nope_channels@.contains(c) {
                            let a = choose|a: int| 0 <= a < nope_channels@.len() && nope_channels@[a] == c;
                            if a < before.len() {
                                assert(before.contains(c));
                            }
                        }
                        if c < 2 * (pair + 1) && !pairs@.contains((c / 2) as usize) {
                            if c < 2 * pair {
                                assert(before.contains(c));
                                let a = choose|a: int| 0 <= a < before.len() && before[a] == c;
                                assert(nope_channels@[a] == c);
                            } else if c == 2 * pair {
                                assert(nope_channels@[before.len() as int] == c);
                            } else {
                                assert(nope_channels@[before.len() as int + 1] == c);
                            }
                        }
                    }
                }
            }
            pair = pair + 1;
        }
        proof {
            assert(taken == pairs.len()) by {
                if taken < pairs.len() {
                    assert(pairs@[taken] < pair_count);
                }
            }
            assert(pairs@.take(taken) =~= pairs@);
            lemma_channel_partition(d_head, pairs@, nope_channels@);
        }
        Ok(RopePairSelection { d_head, pairs, rope_channels, nope_channels })
    }

    /// Retain the first native RoPE pairs (the highest-frequency end of SCIAGENT's
    /// current interleaved RoPE ordering).
    pub fn high_frequency_prefix(d_head: usize, rope_dimensions: usize) -> (result: Result<
        Self,
        ElasticMlaPlanError,
    >)
        ensures
            match result {
                Ok(s) => valid_rope_dimensions(d_head, rope_dimensions) && s.spec_d_head() == d_head
                    && s.spec_pairs() == Seq::new(
                    (rope_dimensions / 2) as nat,
                    |i: int| i as usize,
                ) && s.spec_rope_channels() == rope_channels_of(s.spec_pairs())
                    && is_nope_channels(s.spec_nope_channels(), s.spec_pairs(), d_head as int),
                Err(e) => !valid_rope_dimensions(d_head, rope_dimensions) && e
                    == (ElasticMlaPlanError::InvalidRopeDimension { rope_dimensions, d_head }),
            },
    {
        require_rope_dimensions(d_head, rope_dimensions)?;
        let keep = rope_dimensions / 2;
        let mut pairs: Vec<usize> = Vec::new();
        let mut p: usize = 0;
        while p < keep
            invariant
                p <= keep,
                pairs@ == Seq::new(p as nat, |i: int| i as usize),
            decreases keep - p,
        {
            pairs.push(p);
            p = p + 1;
            assert(pairs@ =~= Seq::new(p as nat, |i: int| i as usize));
        }
        Self::new_canonical(d_head, pairs)
    }

    /// Retain the last native RoPE pairs.
    pub fn low_frequency_suffix(d_head: usize, rope_dimensions: usize) -> (result: Result<
        Self,
        ElasticMlaPlanError,
    >)
        ensures
            match result {
                Ok(s) => valid_rope_dimensions(d_head, rope_dimensions) && s.spec_d_head() == d_head
                    && s.spec_pairs() == Seq::new(
                    (rope_dimensions / 2) as nat,
                    |i: int| (d_head / 2 - rope_dimensions / 2 + i) as usize,
                ) && s.spec_rope_channels() == rope_channels_of(s.spec_pairs())
                    && is_nope_channels(s.spec_nope_channels(), s.spec_pairs(), d_head as int),
                Err(e) => !valid_rope_dimensions(d_head, rope_dimensions) && e
                    == (ElasticMlaPlanError::InvalidRopeDimension { rope_dimensions, d_head }),
            },
    {
        require_rope_dimensions(d_head, rope_dimensions)?;
        let pair_count = d_head / 2;
        let keep = rope_dimensions / 2;
        let first = pair_count - keep;
        let mut pairs: Vec<usize> = Vec::new();
        let mut p: usize = first;
        while p < pair_count
            invariant
                first <= p <= pair_count,
                first == pair_count - keep,
                pairs@ == Seq::new((p - first) as nat, |i: int| (first + i) as usize),
            decreases pair_count - p,
        {
            pairs.push(p);
            p = p + 1;
            assert(pairs@ =~= Seq::new((p - first) as nat, |i: int| (first + i) as usize));
        }
        Self::new_canonical(d_head, pairs)
    }

    /// [`RopePairSelection::new`] on pairs already known to be canonical.
    fn new_canonical(d_head: usize, pairs: Vec<usize>) -> (result: Result<Self, ElasticMlaPlanError>)
        requires
            d_head > 0,
            d_head % 2 == 0,
            canonical_pairs(pairs@, (d_head / 2) as int),
        ensures
            match result {
                Ok(s) => s.spec_d_head() == d_head && s.spec_pairs() == pairs@
                    && s.spec_rope_channels() == rope_channels_of(pairs@) && is_nope_channels(
                    s.spec_nope_channels(),
                    pairs@,
                    d_head as int,
                ),
                Err(_) => false,
            },
    {
        proof {
            lemma_canonical_no_bad(pairs@, (d_head / 2) as int);
        }
        Self::new(d_head, pairs)
    }

    pub fn d_head(&self) -> (d: usize)
        ensures
            d == self.spec_d_head(),
    {
        self.d_head
    }

    pub fn pair_indices(&self) -> (p: &[usize])
        ensures
            p@ == self.spec_pairs(),
    {
        self.pairs.as_slice()
    }

    pub fn rope_channels(&self) -> (c: &[usize])
        ensures
            c@ == self.spec_rope_channels(),
    {
        self.rope_channels.as_slice()
    }

    pub fn nope_channels(&self) -> (c: &[usize])
        ensures
            c@ == self.spec_nope_channels(),
    {
        self.nope_channels.as_slice()
    }

    pub fn rope_dimensions(&self) -> (n: usize)
        ensures
            n == self.spec_rope_channels().len(),
    {
        self.rope_channels.len()
    }

    pub fn nope_dimensions(&self) -> (n: usize)
        ensures
            n == self.spec_nope_channels().len(),
    {
        self.nope_channels.len()
    }
}

/// A RoPE width that keeps whole pairs and leaves at least one NoPE pair.
pub open spec fn valid_rope_dimensions(d_head: usize, rope_dimensions: usize) -> bool {
    d_head > 0 && d_head % 2 == 0 && rope_dimensions % 2 == 0 && rope_dimensions < d_head
}

/// Checks that `rope_dimensions` keeps whole pairs of a positive even head
/// width and leaves at least one NoPE pair.
pub fn require_rope_dimensions(d_head: usize, rope_dimensions: usize) -> (result: Result<
    (),
    ElasticMlaPlanError,
>)
    ensures
        match result {
            Ok(()) => valid_rope_dimensions(d_head, rope_dimensions),
            Err(e) => !valid_rope_dimensions(d_head, rope_dimensions) && e
                == (ElasticMlaPlanError::InvalidRopeDimension { rope_dimensions, d_head }),
        },
{
    if d_head == 0 || d_head % 2 != 0 || rope_dimensions % 2 != 0 || rope_dimensions >= d_head {
        return Err(ElasticMlaPlanError::InvalidRopeDimension { rope_dimensions, d_head });
    }
    Ok(())
}

/// A canonical prefix has no bad pair, and the first bad pair of a longer
/// prefix is the first bad pair of the whole sequence.
proof fn lemma_first_bad_prefix(pairs: Seq<usize>, j: int, pair_count: int)
    requires
        0 <= j <= pairs.len(),
        first_bad_pair(pairs.take(j), pair_count) < j,
    ensures
        first_bad_pair(pairs, pair_count) == first_bad_pair(pairs.take(j), pair_count),
    decreases pairs.len(),
{
    if j < pairs.len() {
        let prefix = pairs.drop_last();
        assert(prefix.take(j) =~= pairs.take(j));
        lemma_first_bad_prefix(prefix, j, pair_count);
    } else {
        assert(pairs.take(j) =~= pairs);
    }
}

/// Canonical pairs have no bad position.
proof fn lemma_canonical_no_bad(pairs: Seq<usize>, pair_count: int)
    requires
        canonical_pairs(pairs, pair_count),
    ensures
        first_bad_pair(pairs, pair_count) == pairs.len(),
    decreases pairs.len(),
{
    if pairs.len() > 0 {
        let prefix = pairs.drop_last();
        assert(canonical_pairs(prefix, pair_count)) by {
            assert forall|a: int, b: int| 0 <= a < b < prefix.len() implies #[trigger] prefix[a]
                < #[trigger] prefix[b] by {
                assert(pairs[a] < pairs[b]);
            }
        }
        lemma_canonical_no_bad(prefix, pair_count);
        let n = pairs.len() - 1;
        assert(pairs[n] < pair_count);
        if n > 0 {
            assert(pairs[n - 1] < pairs[n]);
        }
    }
}


/// A strictly increasing list of channels.
pub open spec fn ascending(channels: Seq<usize>) -> bool {
    forall|i: int, j: int| 0 <= i < j < channels.len() ==> #[trigger] channels[i] < #[trigger] channels[j]
}

/// The pair of channel `c` is selected.
pub open spec fn in_selected_pair(pairs: Seq<usize>, c: int) -> bool {
    pairs.contains((c / 2) as usize)
}

/// Number of channels below `d` whose pair is selected (`selected`) or not.
pub open spec fn channel_count(pairs: Seq<usize>, d: int, selected: bool) -> nat
    decreases d,
{
    if d <= 0 {
        0
    } else {
        channel_count(pairs, d - 1, selected) + if in_selected_pair(pairs, d - 1) == selected {
            1nat
        } else {
            0nat
        }
    }
}

/// The channel layout of a pair selection: the RoPE channels and the NoPE
/// channels are two ascending lists that split `0..d_head` between them,
/// `2 * pairs.len()` RoPE channels and `d_head - 2 * pairs.len()` NoPE ones.
pub open spec fn channel_partition(d_head: int, pairs: Seq<usize>, rope: Seq<usize>, nope: Seq<usize>) -> bool {
    &&& ascending(rope)
    &&& ascending(nope)
    &&& forall|c: usize| rope.contains(c) <==> (c < d_head && in_selected_pair(pairs, c as int))
    &&& forall|c: usize| nope.contains(c) <==> (c < d_head && !in_selected_pair(pairs, c as int))
    &&& rope.len() == 2 * pairs.len()
    &&& nope.len() == d_head - 2 * pairs.len()
    &&& rope.len() + nope.len() == d_head
}

proof fn lemma_div_mod_two(i: int)
    requires
        0 <= i,
    ensures
        i == 2 * (i / 2) + i % 2,
        0 <= i % 2 < 2,
{
}

/// Channel `i` of the RoPE list is channel `i % 2` of pair `pairs[i / 2]`.
proof fn lemma_rope_at(d_head: usize, pairs: Seq<usize>, i: int)
    requires
        d_head > 0,
        d_head % 2 == 0,
        canonical_pairs(pairs, (d_head / 2) as int),
        0 <= i < 2 * pairs.len(),
    ensures
        0 <= i / 2 < pairs.len(),
        rope_channels_of(pairs)[i] as int == 2 * pairs[i / 2] + i % 2,
        rope_channels_of(pairs)[i] < d_head,
        i == 2 * (i / 2) + i % 2,
        0 <= i % 2 < 2,
{
    lemma_div_mod_two(i);
    assert(pairs[i / 2] < d_head / 2);
}

/// The RoPE channels of canonical pairs ascend and hold exactly the channels
/// of the selected pairs.
proof fn lemma_rope_channels(d_head: usize, pairs: Seq<usize>)
    requires
        d_head > 0,
        d_head % 2 == 0,
        canonical_pairs(pairs, (d_head / 2) as int),
    ensures
        ascending(rope_channels_of(pairs)),
        forall|c: usize| rope_channels_of(pairs).contains(c) <==> (c < d_head && in_selected_pair(pairs, c as int)),
{
    let rope = rope_channels_of(pairs);
    assert forall|i: int, j: int| 0 <= i < j < rope.len() implies #[trigger] rope[i] < #[trigger] rope[j] by {
        lemma_rope_at(d_head, pairs, i);
        lemma_rope_at(d_head, pairs, j);
        if i / 2 < j / 2 {
            assert(pairs[i / 2] < pairs[j / 2]);
        }
    }
    assert forall|c: usize| rope.contains(c) implies c < d_head && in_selected_pair(pairs, c as int) by {
        let i = choose|i: int| 0 <= i < rope.len() && rope[i] == c;
        lemma_rope_at(d_head, pairs, i);
        assert(c as int / 2 == pairs[i / 2]);
        assert(pairs.contains(pairs[i / 2]));
    }
    assert forall|c: usize| c < d_head && in_selected_pair(pairs, c as int) implies rope.contains(c) by {
        let j = choose|j: int| 0 <= j < pairs.len() && pairs[j] == (c / 2) as usize;
        lemma_div_mod_two(c as int);
        let i = 2 * j + c % 2;
        lemma_rope_at(d_head, pairs, i);
        assert(i / 2 == j && i % 2 == c % 2);
        assert(rope[i] == c);
    }
}

/// An ascending list of the channels below `d` with a given selection state
/// has one entry per such channel.
proof fn lemma_ascending_count(channels: Seq<usize>, pairs: Seq<usize>, d: int, selected: bool)
    requires
        0 <= d <= usize::MAX,
        ascending(channels),
        forall|c: usize| channels.contains(c) <==> (c < d && in_selected_pair(pairs, c as int) == selected),
    ensures
        channels.len() == channel_count(pairs, d, selected),
    decreases d,
{
    if d > 0 {
        let top = (d - 1) as usize;
        if in_selected_pair(pairs, d - 1) == selected {
            assert(channels.contains(top));
            let k = choose|k: int| 0 <= k < channels.len() && channels[k] == top;
            assert(k == channels.len() - 1) by {
                if k < channels.len() - 1 {
                    assert(channels[k] < channels[channels.len() - 1]);
                    assert(channels.contains(channels[channels.len() - 1]));
                }
            }
            let rest = channels.drop_last();
            assert forall|c: usize| rest.contains(c) <==> (c < d - 1 && in_selected_pair(pairs, c as int) == selected) by {
                if rest.contains(c) {
                    let a = choose|a: int| 0 <= a < rest.len() && rest[a] == c;
                    assert(channels[a] < channels[k]);
                    assert(channels.contains(c));
                }
                if c < d - 1 && in_selected_pair(pairs, c as int) == selected {
                    assert(channels.contains(c));
                    let a = choose|a: int| 0 <= a < channels.len() && channels[a] == c;
                    assert(a != k);
                    assert(rest[a] == c);
                }
            }
            lemma_ascending_count(rest, pairs, d - 1, selected);
        } else {
            assert forall|c: usize| channels.contains(c) <==> (c < d - 1 && in_selected_pair(pairs, c as int) == selected) by {
                if channels.contains(c) && c == d - 1 {
                    assert(c as int == d - 1);
                }
            }
            lemma_ascending_count(channels, pairs, d - 1, selected);
        }
    } else if channels.len() > 0 {
        assert(channels.contains(channels[0]));
    }
}

/// The selected and the other channels together number `d`.
proof fn lemma_counts_add(pairs: Seq<usize>, d: int)
    requires
        0 <= d,
    ensures
        channel_count(pairs, d, true) + channel_count(pairs, d, false) == d,
    decreases d,
{
    if d > 0 {
        lemma_counts_add(pairs, d - 1);
    }
}

/// Channel law of a pair selection: with a positive even head width and
/// canonical pairs, the RoPE channels of the pairs and any ascending list of
/// exactly the remaining channels split `0..d_head`, with
/// `2 * pairs.len()` RoPE and `d_head - 2 * pairs.len()` NoPE channels.
pub proof fn lemma_channel_partition(d_head: usize, pairs: Seq<usize>, nope: Seq<usize>)
    requires
        d_head > 0,
        d_head % 2 == 0,
        canonical_pairs(pairs, (d_head / 2) as int),
        is_nope_channels(nope, pairs, d_head as int),
    ensures
        channel_partition(d_head as int, pairs, rope_channels_of(pairs), nope),
{
    let rope = rope_channels_of(pairs);
    lemma_rope_channels(d_head, pairs);
    assert forall|c: usize| rope.contains(c) <==> (c < d_head && in_selected_pair(pairs, c as int) == true) by {}
    lemma_ascending_count(rope, pairs, d_head as int, true);
    assert forall|c: usize| nope.contains(c) <==> (c < d_head && in_selected_pair(pairs, c as int) == false) by {}
    lemma_ascending_count(nope, pairs, d_head as int, false);
    lemma_counts_add(pairs, d_head as int);
}

} // verus!
