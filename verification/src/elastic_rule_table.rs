//! Adaptive compact merge-rule lookup for ElasticTokenizer kernels.
//!
//! Normal canonical tokenizers use a left-indexed CSR table: `left_id` selects a
//! contiguous `right_id` slice, then a binary search returns the packed rule.
//! If the offset vector would be disproportionately large, construction falls
//! back to a globally sorted flat packed table. Inputs outside the checked `u32`
//! token/rank domain return `Ok(None)` so the caller can keep its wide path.

use vstd::prelude::*;

use crate::bpe_semantics::{
    MergeTriple, RuleMap, TokenId, has_duplicate_pair, is_duplicated_pair,
    is_least_duplicated_pair, lemma_ordered_rule_map, merge_pair,
    ordered_rule_map, pair_le,
};
use crate::elastic_id::{PackedRule, PairKey, lemma_pair_key_order};
use crate::elastic_tokenizer::DuplicateMergeRule;

verus! {

/// One compact table entry: packed pair key and packed `(rank, output)` rule.
pub type RuleEntry = (PairKey, PackedRule);

/// The packed key word of an entry.
pub open spec fn entry_raw(e: RuleEntry) -> u64 {
    e.0.spec_raw()
}

/// The token pair of an entry.
pub open spec fn entry_pair(e: RuleEntry) -> (TokenId, TokenId) {
    (e.0.spec_left() as TokenId, e.0.spec_right() as TokenId)
}

/// The abstract `(rank, output)` payload of an entry.
pub open spec fn entry_rule(e: RuleEntry) -> (nat, TokenId) {
    (e.1.spec_rank() as nat, e.1.spec_output() as TokenId)
}

/// Entries are in non-decreasing key order.
pub open spec fn entries_sorted(s: Seq<RuleEntry>) -> bool {
    forall|i: int, j: int| 0 <= i <= j < s.len() ==> entry_raw(s[i]) <= entry_raw(s[j])
}

/// Entries are in strictly increasing key order (so every key is unique).
pub open spec fn entries_strictly_sorted(s: Seq<RuleEntry>) -> bool {
    forall|i: int, j: int| 0 <= i < j < s.len() ==> entry_raw(s[i]) < entry_raw(s[j])
}

/// The keys at `v` and `v + 1` are strictly increasing.
pub open spec fn ascending_at(s: Seq<RuleEntry>, v: int) -> bool {
    entry_raw(s[v]) < entry_raw(s[v + 1])
}

/// Rule `m` at rank `i` fits the compact `u32` domain.
pub open spec fn fits_compact(m: MergeTriple, i: int) -> bool {
    m.0 <= u32::MAX && m.1 <= u32::MAX && i <= u32::MAX && m.2 <= u32::MAX
}

/// Every rule of the table fits the compact domain.
pub open spec fn all_fit_compact(merges: Seq<MergeTriple>) -> bool {
    forall|i: int| 0 <= i < merges.len() ==> #[trigger] fits_compact(merges[i], i)
}

/// `e` is the compact encoding of rule `m` at rank `i`.
pub open spec fn entry_of_merge(e: RuleEntry, m: MergeTriple, i: int) -> bool {
    &&& e.0.spec_left() == m.0
    &&& e.0.spec_right() == m.1
    &&& e.1.spec_rank() == i
    &&& e.1.spec_output() == m.2
}

/// The rule map described by a sequence of entries.
pub open spec fn entries_rule_map(s: Seq<RuleEntry>) -> RuleMap {
    Map::new(
        |k: (TokenId, TokenId)| exists|j: int| 0 <= j < s.len() && entry_pair(s[j]) == k,
        |k: (TokenId, TokenId)|
            entry_rule(s[choose|j: int| 0 <= j < s.len() && entry_pair(s[j]) == k]),
    )
}

/// Rank payloads and outputs of a strictly sorted table are found at their key.
pub proof fn lemma_entries_rule_map_at(s: Seq<RuleEntry>, j: int)
    requires
        entries_strictly_sorted(s),
        0 <= j < s.len(),
    ensures
        entries_rule_map(s).contains_key(entry_pair(s[j])),
        entries_rule_map(s)[entry_pair(s[j])] == entry_rule(s[j]),
{
    let k = entry_pair(s[j]);
    let c = choose|c: int| 0 <= c < s.len() && entry_pair(s[c]) == k;
    lemma_pair_key_order(s[c].0, s[j].0);
    if c < j {
        assert(entry_raw(s[c]) < entry_raw(s[j]));
    } else if j < c {
        assert(entry_raw(s[j]) < entry_raw(s[c]));
    }
}

/// Builds the entries in rank order, or `None` when some rule does not fit
/// the compact domain.
fn compact_entries(merges: &[MergeTriple]) -> (result: Option<Vec<RuleEntry>>)
    ensures
        result is None <==> !all_fit_compact(merges@),
        result matches Some(v) ==> v.len() == merges.len() && forall|i: int|
            0 <= i < merges.len() ==> #[trigger] entry_of_merge(v@[i], merges@[i], i),
{
    let mut entries: Vec<RuleEntry> = Vec::with_capacity(merges.len());
    let mut rank: usize = 0;
    while rank < merges.len()
        invariant
            0 <= rank <= merges.len(),
            entries.len() == rank,
            forall|i: int| 0 <= i < rank ==> #[trigger] fits_compact(merges@[i], i),
            forall|i: int| 0 <= i < rank ==> #[trigger] entry_of_merge(entries@[i], merges@[i], i),
        decreases merges.len() - rank,
    {
        let (left, right, output) = merges[rank];
        let key = match PairKey::try_from_usize(left, right) {
            Ok(key) => key,
            Err(_) => {
                assert(!fits_compact(merges@[rank as int], rank as int));
                return None;
            },
        };
        let rule = match PackedRule::try_from_usize(rank, output) {
            Ok(rule) => rule,
            Err(_) => {
                assert(!fits_compact(merges@[rank as int], rank as int));
                return None;
            },
        };
        proof {
            crate::elastic_id::lemma_pack_roundtrip(left as u32, right as u32);
            crate::elastic_id::lemma_pack_roundtrip(rank as u32, output as u32);
        }
        entries.push((key, rule));
        rank = rank + 1;
    }
    Some(entries)
}

/// Index of the first entry whose key is greater than `raw`.
fn upper_bound(s: &Vec<RuleEntry>, raw: u64) -> (p: usize)
    requires
        entries_sorted(s@),
    ensures
        p <= s.len(),
        forall|i: int| 0 <= i < p ==> entry_raw(#[trigger] s@[i]) <= raw,
        forall|i: int| p <= i < s.len() ==> entry_raw(#[trigger] s@[i]) > raw,
{
    let mut lo: usize = 0;
    let mut hi: usize = s.len();
    while lo < hi
        invariant
            0 <= lo <= hi <= s.len(),
            entries_sorted(s@),
            forall|i: int| 0 <= i < lo ==> entry_raw(#[trigger] s@[i]) <= raw,
            forall|i: int| hi <= i < s.len() ==> entry_raw(#[trigger] s@[i]) > raw,
        decreases hi - lo,
    {
        let mid = lo + (hi - lo) / 2;
        if s[mid].0.raw() <= raw {
            lo = mid + 1;
        } else {
            hi = mid;
        }
    }
    lo
}

/// Sorts entries by key (insertion with a binary-searched position).
fn sort_entries(input: Vec<RuleEntry>) -> (sorted: Vec<RuleEntry>)
    requires
        forall|i: int, j: int| 0 <= i < j < input.len() ==> input@[i] != input@[j],
    ensures
        entries_sorted(sorted@),
        sorted.len() == input.len(),
        forall|i: int, j: int| 0 <= i < j < sorted.len() ==> sorted@[i] != sorted@[j],
        forall|x: RuleEntry| sorted@.contains(x) <==> input@.contains(x),
{
    let mut sorted: Vec<RuleEntry> = Vec::with_capacity(input.len());
    let mut i: usize = 0;
    while i < input.len()
        invariant
            0 <= i <= input.len(),
            sorted.len() == i,
            forall|a: int, b: int| 0 <= a < b < input.len() ==> input@[a] != input@[b],
            entries_sorted(sorted@),
            forall|a: int, b: int| 0 <= a < b < sorted.len() ==> sorted@[a] != sorted@[b],
            forall|x: RuleEntry| sorted@.contains(x) <==> input@.take(i as int).contains(x),
        decreases input.len() - i,
    {
        let e = input[i];
        let p = upper_bound(&sorted, e.0.raw());
        let ghost old_sorted = sorted@;
        assert(!old_sorted.contains(e)) by {
            if old_sorted.contains(e) {
                assert(input@.take(i as int).contains(e));
                let a = choose|a: int| 0 <= a < i && input@.take(i as int)[a] == e;
                assert(input@[a] == input@[i as int]);
            }
        }
        sorted.insert(p, e);
        proof {
            let next = input@.take(i + 1);
            let prev = input@.take(i as int);
            assert(next =~= prev.push(e));
            assert forall|x: RuleEntry| sorted@.contains(x) <==> next.contains(x) by {
                if sorted@.contains(x) {
                    let a = choose|a: int| 0 <= a < sorted@.len() && sorted@[a] == x;
                    if a < p {
                        assert(old_sorted[a] == x);
                        assert(old_sorted.contains(x));
                    } else if a > p {
                        assert(old_sorted[a - 1] == x);
                        assert(old_sorted.contains(x));
                    }
                    assert(next.contains(x)) by {
                        if x != e {
                            assert(prev.contains(x));
                            let b = choose|b: int| 0 <= b < i && prev[b] == x;
                            assert(next[b] == x);
                        } else {
                            assert(next[i as int] == x);
                        }
                    }
                }
                if next.contains(x) {
                    if x == e {
                        assert(sorted@[p as int] == x);
                    } else {
                        let b = choose|b: int| 0 <= b < i + 1 && next[b] == x;
                        assert(b < i);
                        assert(prev[b] == x);
                        assert(old_sorted.contains(x));
                        let a = choose|a: int| 0 <= a < old_sorted.len() && old_sorted[a] == x;
                        if a < p {
                            assert(sorted@[a] == x);
                        } else {
                            assert(sorted@[a + 1] == x);
                        }
                    }
                }
            }
            assert forall|a: int, b: int| 0 <= a <= b < sorted.len() implies entry_raw(sorted@[a])
                <= entry_raw(sorted@[b]) by {
                if a < p && b < p {
                    assert(sorted@[a] == old_sorted[a] && sorted@[b] == old_sorted[b]);
                } else if a < p && b == p {
                    assert(sorted@[a] == old_sorted[a]);
                } else if a < p && b > p {
                    assert(sorted@[a] == old_sorted[a] && sorted@[b] == old_sorted[b - 1]);
                } else if a == p && b > p {
                    assert(sorted@[b] == old_sorted[b - 1]);
                } else if a > p {
                    assert(sorted@[a] == old_sorted[a - 1] && sorted@[b] == old_sorted[b - 1]);
                }
            }
            assert forall|a: int, b: int| 0 <= a < b < sorted.len() implies sorted@[a]
                != sorted@[b] by {
                if a < p && b < p {
                    assert(sorted@[a] == old_sorted[a] && sorted@[b] == old_sorted[b]);
                } else if a < p && b == p {
                    assert(old_sorted.contains(sorted@[a]));
                } else if a < p && b > p {
                    assert(sorted@[a] == old_sorted[a] && sorted@[b] == old_sorted[b - 1]);
                } else if a == p && b > p {
                    assert(old_sorted.contains(sorted@[b]));
                } else if a > p {
                    assert(sorted@[a] == old_sorted[a - 1] && sorted@[b] == old_sorted[b - 1]);
                }
            }
        }
        i = i + 1;
    }
    assert(input@.take(input.len() as int) =~= input@);
    sorted
}

/// Reports the first adjacent pair of equal keys in a sorted table.
fn reject_duplicates(entries: &Vec<RuleEntry>) -> (result: Result<(), DuplicateMergeRule>)
    requires
        entries_sorted(entries@),
    ensures
        match result {
            Ok(()) => entries_strictly_sorted(entries@),
            Err(e) => exists|w: int|
                0 <= w < entries.len() - 1 && entry_raw(entries@[w]) == entry_raw(entries@[w + 1])
                    && (forall|v: int| 0 <= v < w ==> #[trigger] ascending_at(entries@, v)) && (e.left, e.right) == entry_pair(entries@[w]),
        },
{
    let mut w: usize = 0;
    while entries.len() > 0 && w < entries.len() - 1
        invariant
            entries_sorted(entries@),
            0 <= w <= entries.len(),
            forall|v: int| 0 <= v < w ==> #[trigger] ascending_at(entries@, v),
        decreases entries.len() - w,
    {
        if entries[w].0.raw() == entries[w + 1].0.raw() {
            let key = entries[w].0;
            assert(0 <= w < entries.len() - 1 && entry_raw(entries@[w as int]) == entry_raw(entries@[w + 1])
                    && (forall|v: int| 0 <= v < w ==> #[trigger] ascending_at(entries@, v)));
            let err = DuplicateMergeRule { left: key.left() as usize, right: key.right() as usize };
            assert((err.left, err.right) == entry_pair(entries@[w as int]));
            return Err(err);
        }
        w = w + 1;
    }
    proof {
        assert forall|i: int, j: int| 0 <= i < j < entries.len() implies entry_raw(entries@[i])
            < entry_raw(entries@[j]) by {
            assert(ascending_at(entries@, i));
        }
    }
    Ok(())
}

/// Properties of a sorted, duplicate-free permutation of the compact entries
/// of a merge table.
proof fn lemma_sorted_entries_describe_merges(
    merges: Seq<MergeTriple>,
    v: Seq<RuleEntry>,
    s: Seq<RuleEntry>,
)
    requires
        v.len() == merges.len(),
        forall|i: int| 0 <= i < merges.len() ==> #[trigger] entry_of_merge(v[i], merges[i], i),
        forall|x: RuleEntry| s.contains(x) <==> v.contains(x),
        forall|a: int, b: int| 0 <= a < b < s.len() ==> s[a] != s[b],
        entries_sorted(s),
    ensures
        entries_strictly_sorted(s) ==> !has_duplicate_pair(merges) && entries_rule_map(s)
            =~= ordered_rule_map(merges),
        forall|w: int|
            0 <= w < s.len() - 1 && entry_raw(s[w]) == entry_raw(s[w + 1]) && (forall|u: int|
                0 <= u < w ==> #[trigger] ascending_at(s, u)) ==> is_least_duplicated_pair(
                merges,
                entry_pair(s[w]),
            ),
{
    // Entry pairs coincide with merge pairs.
    assert forall|i: int| 0 <= i < merges.len() implies entry_pair(v[i]) == merge_pair(
        #[trigger] merges[i],
    ) by {
        assert(entry_of_merge(v[i], merges[i], i));
    }
    // Any two positions of `s` with the same pair hold distinct merge indices.
    if entries_strictly_sorted(s) {
        assert(!has_duplicate_pair(merges)) by {
            if has_duplicate_pair(merges) {
                let (i, j) = choose|i: int, j: int|
                    0 <= i < j < merges.len() && #[trigger] merge_pair(merges[i])
                        == #[trigger] merge_pair(merges[j]);
                assert(entry_of_merge(v[i], merges[i], i));
                assert(entry_of_merge(v[j], merges[j], j));
                assert(v.contains(v[i]) && v.contains(v[j]));
                let a = choose|a: int| 0 <= a < s.len() && s[a] == v[i];
                let b = choose|b: int| 0 <= b < s.len() && s[b] == v[j];
                lemma_pair_key_order(v[i].0, v[j].0);
                assert(v[i] != v[j]);
                if a < b {
                    assert(entry_raw(s[a]) < entry_raw(s[b]));
                } else if b < a {
                    assert(entry_raw(s[b]) < entry_raw(s[a]));
                }
            }
        }
        lemma_ordered_rule_map(merges);
        let m = ordered_rule_map(merges);
        assert forall|k: (TokenId, TokenId)| #[trigger]
            entries_rule_map(s).contains_key(k) <==> m.contains_key(k) by {
            if entries_rule_map(s).contains_key(k) {
                let j = choose|j: int| 0 <= j < s.len() && entry_pair(s[j]) == k;
                assert(s.contains(s[j]));
                let i = choose|i: int| 0 <= i < v.len() && v[i] == s[j];
                assert(entry_of_merge(v[i], merges[i], i));
                assert(m.contains_key(merge_pair(merges[i])));
            }
            if m.contains_key(k) {
                let i = choose|i: int| 0 <= i < merges.len() && merge_pair(merges[i]) == k;
                assert(entry_of_merge(v[i], merges[i], i));
                assert(v.contains(v[i]));
                let j = choose|j: int| 0 <= j < s.len() && s[j] == v[i];
                assert(entry_pair(s[j]) == k);
            }
        }
        assert forall|k: (TokenId, TokenId)| #[trigger]
            entries_rule_map(s).contains_key(k) implies entries_rule_map(s)[k] == m[k] by {
            let j = choose|j: int| 0 <= j < s.len() && entry_pair(s[j]) == k;
            lemma_entries_rule_map_at(s, j);
            assert(s.contains(s[j]));
            let i = choose|i: int| 0 <= i < v.len() && v[i] == s[j];
            assert(entry_of_merge(v[i], merges[i], i));
            assert(m[merge_pair(merges[i])] == (i as nat, merges[i].2));
        }
    }
    assert forall|w: int|
        0 <= w < s.len() - 1 && entry_raw(s[w]) == entry_raw(s[w + 1]) && (forall|u: int|
            0 <= u < w ==> #[trigger] ascending_at(s, u)) implies is_least_duplicated_pair(
        merges,
        entry_pair(s[w]),
    ) by {
        // The two adjacent entries come from two distinct rules with one pair.
        assert(s.contains(s[w]) && s.contains(s[w + 1]));
        let i = choose|i: int| 0 <= i < v.len() && v[i] == s[w];
        let j = choose|j: int| 0 <= j < v.len() && v[j] == s[w + 1];
        assert(entry_of_merge(v[i], merges[i], i));
        assert(entry_of_merge(v[j], merges[j], j));
        lemma_pair_key_order(s[w].0, s[w + 1].0);
        assert(s[w] != s[w + 1]);
        assert(i != j);
        if i < j {
            assert(is_duplicated_pair(merges, entry_pair(s[w])));
        } else {
            assert(merge_pair(merges[j]) == entry_pair(s[w]));
            assert(is_duplicated_pair(merges, entry_pair(s[w])));
        }
        // Any duplicated pair sorts at or after position `w`.
        assert forall|q: (TokenId, TokenId)| is_duplicated_pair(merges, q) implies pair_le(
            entry_pair(s[w]),
            q,
        ) by {
            let (a0, b0) = choose|a0: int, b0: int|
                0 <= a0 < b0 < merges.len() && merge_pair(merges[a0]) == q && merge_pair(
                    merges[b0],
                ) == q;
            assert(entry_of_merge(v[a0], merges[a0], a0));
            assert(entry_of_merge(v[b0], merges[b0], b0));
            assert(v.contains(v[a0]) && v.contains(v[b0]));
            let pa = choose|pa: int| 0 <= pa < s.len() && s[pa] == v[a0];
            let pb = choose|pb: int| 0 <= pb < s.len() && s[pb] == v[b0];
            lemma_pair_key_order(v[a0].0, v[b0].0);
            assert(v[a0] != v[b0]);
            let lo = if pa < pb { pa } else { pb };
            let hi = if pa < pb { pb } else { pa };
            assert(entry_raw(s[lo]) == entry_raw(s[hi]));
            assert(entry_raw(s[lo]) <= entry_raw(s[lo + 1]) <= entry_raw(s[hi]));
            assert(w <= lo) by {
                if lo < w {
                    assert(ascending_at(s, lo));
                }
            }
            assert(entry_raw(s[w]) <= entry_raw(s[lo]));
            lemma_pair_key_order(s[w].0, s[lo].0);
        }
    }
}

/// Sorted, duplicate-checked compact entries of a merge table.
fn sorted_compact_entries(merges: &[MergeTriple]) -> (result: Result<
    Option<Vec<RuleEntry>>,
    DuplicateMergeRule,
>)
    ensures
        match result {
            Ok(None) => !all_fit_compact(merges@),
            Ok(Some(s)) => all_fit_compact(merges@) && !has_duplicate_pair(merges@)
                && entries_strictly_sorted(s@) && entries_rule_map(s@) == ordered_rule_map(merges@)
                && s.len() == merges.len(),
            Err(e) => all_fit_compact(merges@) && is_least_duplicated_pair(
                merges@,
                (e.left, e.right),
            ),
        },
{
    let entries = match compact_entries(merges) {
        Some(entries) => entries,
        None => return Ok(None),
    };
    proof {
        assert forall|a: int, b: int| 0 <= a < b < entries.len() implies entries@[a]
            != entries@[b] by {
            assert(entry_of_merge(entries@[a], merges@[a], a));
            assert(entry_of_merge(entries@[b], merges@[b], b));
        }
    }
    let ghost v = entries@;
    let sorted = sort_entries(entries);
    proof {
        lemma_sorted_entries_describe_merges(merges@, v, sorted@);
    }
    match reject_duplicates(&sorted) {
        Ok(()) => Ok(Some(sorted)),
        Err(e) => Err(e),
    }
}

/// Position of the entry with key word `raw` in a strictly sorted table.
fn search_key(s: &Vec<RuleEntry>, raw: u64) -> (found: Option<usize>)
    requires
        entries_strictly_sorted(s@),
    ensures
        match found {
            Some(j) => j < s.len() && entry_raw(s@[j as int]) == raw,
            None => forall|j: int| 0 <= j < s.len() ==> entry_raw(#[trigger] s@[j]) != raw,
        },
{
    let mut lo: usize = 0;
    let mut hi: usize = s.len();
    while lo < hi
        invariant
            0 <= lo <= hi <= s.len(),
            entries_strictly_sorted(s@),
            forall|i: int| 0 <= i < lo ==> entry_raw(#[trigger] s@[i]) < raw,
            forall|i: int| hi <= i < s.len() ==> entry_raw(#[trigger] s@[i]) > raw,
        decreases hi - lo,
    {
        let mid = lo + (hi - lo) / 2;
        let key = s[mid].0.raw();
        if key == raw {
            return Some(mid);
        } else if key < raw {
            lo = mid + 1;
        } else {
            hi = mid;
        }
    }
    None
}

/// Globally sorted flat packed rule table.
#[derive(Clone, Debug)]
pub struct FlatPackedRuleTable {
    entries: Vec<RuleEntry>,
}

impl FlatPackedRuleTable {
    /// The table is strictly sorted by key.
    pub closed spec fn well_formed(&self) -> bool {
        entries_strictly_sorted(self.entries@)
    }

    /// The table's abstract rules.
    pub closed spec fn rules(&self) -> RuleMap {
        entries_rule_map(self.entries@)
    }

    /// Builds a flat table; `Ok(None)` when some rule does not fit the compact
    /// domain, and the least duplicated pair when one exists.
    pub fn try_from_ordered_merges(merges: &[MergeTriple]) -> (result: Result<
        Option<Self>,
        DuplicateMergeRule,
    >)
        ensures
            match result {
                Ok(None) => !all_fit_compact(merges@),
                Ok(Some(t)) => all_fit_compact(merges@) && !has_duplicate_pair(merges@)
                    && t.well_formed() && t.rules() == ordered_rule_map(merges@),
                Err(e) => all_fit_compact(merges@) && is_least_duplicated_pair(
                    merges@,
                    (e.left, e.right),
                ),
            },
    {
        match sorted_compact_entries(merges) {
            Ok(Some(entries)) => Ok(Some(FlatPackedRuleTable { entries })),
            Ok(None) => Ok(None),
            Err(e) => Err(e),
        }
    }

    pub fn get(&self, left: u32, right: u32) -> (rule: Option<PackedRule>)
        requires
            self.well_formed(),
        ensures
            match rule {
                Some(r) => self.rules().contains_key((left as TokenId, right as TokenId))
                    && self.rules()[(left as TokenId, right as TokenId)] == (
                    r.spec_rank() as nat,
                    r.spec_output() as TokenId,
                ),
                None => !self.rules().contains_key((left as TokenId, right as TokenId)),
            },
    {
        let key = PairKey::new(left, right);
        match search_key(&self.entries, key.raw()) {
            Some(j) => {
                proof {
                    lemma_pair_key_order(self.entries@[j as int].0, key);
                    lemma_entries_rule_map_at(self.entries@, j as int);
                }
                Some(self.entries[j].1)
            },
            None => {
                proof {
                    if self.rules().contains_key((left as TokenId, right as TokenId)) {
                        let j = choose|j: int|
                            0 <= j < self.entries@.len() && entry_pair(self.entries@[j]) == (
                                left as TokenId,
                                right as TokenId,
                            );
                        lemma_pair_key_order(self.entries@[j].0, key);
                    }
                }
                None
            },
        }
    }

    pub fn is_empty(&self) -> (b: bool)
        requires
            self.well_formed(),
        ensures
            b <==> self.rules().is_empty(),
    {
        let b = self.entries.len() == 0;
        proof {
            if !b {
                lemma_entries_rule_map_at(self.entries@, 0);
            }
        }
        b
    }
}


/// Left-indexed CSR table in structure-of-arrays layout: the entries with
/// left id `l` occupy positions `offsets[l]..offsets[l + 1]` of `rights` and
/// `rules`, in increasing right-id order.
#[derive(Clone)]
pub struct CsrSoaRuleTable {
    offsets: Vec<u32>,
    rights: Vec<u32>,
    rules: Vec<PackedRule>,
    entries: Ghost<Seq<RuleEntry>>,
}

impl CsrSoaRuleTable {
    /// The arrays describe the strictly sorted entries exactly.
    pub closed spec fn well_formed(&self) -> bool {
        let s = self.entries@;
        &&& entries_strictly_sorted(s)
        &&& s.len() > 0
        &&& self.rights@.len() == s.len()
        &&& self.rules@.len() == s.len()
        &&& s.len() <= u32::MAX
        &&& forall|j: int|
            0 <= j < s.len() ==> #[trigger] self.rights@[j] == s[j].0.spec_right()
                && self.rules@[j] == s[j].1
        &&& self.offsets@.len() >= 1
        &&& forall|j: int| 0 <= j < s.len() ==> #[trigger] s[j].0.spec_left() + 1 < self.offsets@.len()
        &&& forall|l: int|
            0 <= l < self.offsets@.len() ==> #[trigger] self.offsets@[l] <= s.len() && (forall|j: int|
                0 <= j < self.offsets@[l] ==> #[trigger] s[j].0.spec_left() < l) && (forall|j: int|
                self.offsets@[l] <= j < s.len() ==> #[trigger] s[j].0.spec_left() >= l)
    }

    /// The table's abstract rules.
    pub closed spec fn rules(&self) -> RuleMap {
        entries_rule_map(self.entries@)
    }

    fn from_sorted_entries(entries: Vec<RuleEntry>, offset_len: usize) -> (table: Self)
        requires
            entries_strictly_sorted(entries@),
            entries.len() > 0,
            entries.len() <= u32::MAX,
            offset_len == entries@.last().0.spec_left() + 2,
        ensures
            table.well_formed(),
            table.rules() == entries_rule_map(entries@),
    {
        let ghost s = entries@;
        let n = entries.len();
        proof {
            assert forall|j: int| 0 <= j < s.len() implies #[trigger] s[j].0.spec_left() + 1
                < offset_len by {
                if j < s.len() - 1 {
                    assert(entry_raw(s[j]) < entry_raw(s.last()));
                    lemma_pair_key_order(s[j].0, s.last().0);
                }
            }
        }
        let mut offsets: Vec<u32> = Vec::with_capacity(offset_len);
        let mut j: usize = 0;
        let mut l: usize = 0;
        while l < offset_len
            invariant
                s == entries@,
                n == s.len(),
                n <= u32::MAX,
                entries_strictly_sorted(s),
                forall|k: int| 0 <= k < s.len() ==> #[trigger] s[k].0.spec_left() + 1 < offset_len,
                0 <= l <= offset_len,
                offsets@.len() == l,
                0 <= j <= n,
                forall|k: int| 0 <= k < j ==> #[trigger] s[k].0.spec_left() < l,
                forall|m: int|
                    0 <= m < l ==> #[trigger] offsets@[m] <= n && (forall|k: int|
                        0 <= k < offsets@[m] ==> #[trigger] s[k].0.spec_left() < m) && (forall|k: int|
                        offsets@[m] <= k < n ==> #[trigger] s[k].0.spec_left() >= m),
            decreases offset_len - l,
        {
            while j < n && (entries[j].0.left() as usize) < l
                invariant
                    s == entries@,
                    n == s.len(),
                    entries_strictly_sorted(s),
                    0 <= j <= n,
                    forall|k: int| 0 <= k < j ==> #[trigger] s[k].0.spec_left() < l,
                decreases n - j,
            {
                j = j + 1;
            }
            proof {
                assert forall|k: int| j <= k < n implies #[trigger] s[k].0.spec_left() >= l by {
                    if j < n {
                        assert(s[j as int].0.spec_left() >= l);
                        if j < k {
                            assert(entry_raw(s[j as int]) < entry_raw(s[k]));
                            lemma_pair_key_order(s[j as int].0, s[k].0);
                        }
                    }
                }
            }
            offsets.push(j as u32);
            l = l + 1;
            proof {
                assert forall|k: int| 0 <= k < j implies #[trigger] s[k].0.spec_left() < l by {}
            }
        }
        let mut rights: Vec<u32> = Vec::with_capacity(n);
        let mut rules: Vec<PackedRule> = Vec::with_capacity(n);
        let mut k: usize = 0;
        while k < n
            invariant
                s == entries@,
                n == s.len(),
                0 <= k <= n,
                rights@.len() == k,
                rules@.len() == k,
                forall|i: int| 0 <= i < k ==> #[trigger] rights@[i] == s[i].0.spec_right() && rules@[i]
                    == s[i].1,
            decreases n - k,
        {
            let (key, rule) = entries[k];
            rights.push(key.right());
            rules.push(rule);
            k = k + 1;
        }
        CsrSoaRuleTable { offsets, rights, rules, entries: Ghost(s) }
    }

    fn get(&self, left: u32, right: u32) -> (rule: Option<PackedRule>)
        requires
            self.well_formed(),
        ensures
            match rule {
                Some(r) => self.rules().contains_key((left as TokenId, right as TokenId))
                    && self.rules()[(left as TokenId, right as TokenId)] == (
                    r.spec_rank() as nat,
                    r.spec_output() as TokenId,
                ),
                None => !self.rules().contains_key((left as TokenId, right as TokenId)),
            },
    {
        let ghost s = self.entries@;
        let ghost k = (left as TokenId, right as TokenId);
        let l = left as usize;
        if l >= self.offsets.len() - 1 {
            proof {
                if self.rules().contains_key(k) {
                    let j = choose|j: int| 0 <= j < s.len() && entry_pair(s[j]) == k;
                    assert(s[j].0.spec_left() + 1 < self.offsets@.len());
                }
            }
            return None;
        }
        let start = self.offsets[l] as usize;
        let end = self.offsets[l + 1] as usize;
        proof {
            assert(self.offsets@[l as int] <= s.len());
            assert(self.offsets@[l + 1] <= s.len());
            if start > end {
                assert(s[end as int].0.spec_left() < l + 1);
                assert(s[end as int].0.spec_left() >= l + 1);
            }
        }
        // Entries in `start..end` are exactly those with this left id; their
        // rights strictly increase.
        let mut lo: usize = start;
        let mut hi: usize = end;
        while lo < hi
            invariant
                self.well_formed(),
                s == self.entries@,
                start <= lo <= hi <= end <= s.len(),
                start == self.offsets@[l as int],
                end == self.offsets@[l + 1],
                l + 1 < self.offsets@.len(),
                l == left,
                forall|i: int| start <= i < lo ==> #[trigger] s[i].0.spec_right() < right,
                forall|i: int| hi <= i < end ==> #[trigger] s[i].0.spec_right() > right,
            decreases hi - lo,
        {
            let mid = lo + (hi - lo) / 2;
            let candidate = self.rights[mid];
            proof {
                assert(s[mid as int].0.spec_left() == left);
            }
            if candidate == right {
                proof {
                    lemma_entries_rule_map_at(s, mid as int);
                }
                return Some(self.rules[mid]);
            } else if candidate < right {
                proof {
                    assert forall|i: int| start <= i < mid + 1 implies #[trigger] s[i].0.spec_right()
                        < right by {
                        if i < mid {
                            assert(entry_raw(s[i]) < entry_raw(s[mid as int]));
                            lemma_pair_key_order(s[i].0, s[mid as int].0);
                        }
                    }
                }
                lo = mid + 1;
            } else {
                proof {
                    assert forall|i: int| mid <= i < end implies #[trigger] s[i].0.spec_right()
                        > right by {
                        if i > mid {
                            assert(entry_raw(s[mid as int]) < entry_raw(s[i]));
                            lemma_pair_key_order(s[mid as int].0, s[i].0);
                        }
                    }
                }
                hi = mid;
            }
        }
        proof {
            if self.rules().contains_key(k) {
                let j = choose|j: int| 0 <= j < s.len() && entry_pair(s[j]) == k;
                assert(s[j].0.spec_left() == left);
                if j < start {
                    assert(s[j].0.spec_left() < l);
                } else if j >= end {
                    assert(s[j].0.spec_left() >= l + 1);
                }
            }
        }
        None
    }
}

/// Compact rule table that is CSR when its offset vector stays within the flat
/// payload size, and flat otherwise.
#[derive(Clone)]
pub enum AdaptivePackedRuleTable {
    Csr(CsrSoaRuleTable),
    Flat(FlatPackedRuleTable),
}

impl AdaptivePackedRuleTable {
    pub closed spec fn well_formed(&self) -> bool {
        match self {
            AdaptivePackedRuleTable::Csr(t) => t.well_formed(),
            AdaptivePackedRuleTable::Flat(t) => t.well_formed(),
        }
    }

    /// The table's abstract rules.
    pub closed spec fn rules(&self) -> RuleMap {
        match self {
            AdaptivePackedRuleTable::Csr(t) => t.rules(),
            AdaptivePackedRuleTable::Flat(t) => t.rules(),
        }
    }

    /// Builds the table; `Ok(None)` when some rule does not fit the compact
    /// domain, and the least duplicated pair when one exists.
    pub fn try_from_ordered_merges(merges: &[MergeTriple]) -> (result: Result<
        Option<Self>,
        DuplicateMergeRule,
    >)
        ensures
            match result {
                Ok(None) => !all_fit_compact(merges@),
                Ok(Some(t)) => all_fit_compact(merges@) && !has_duplicate_pair(merges@)
                    && t.well_formed() && t.rules() == ordered_rule_map(merges@),
                Err(e) => all_fit_compact(merges@) && is_least_duplicated_pair(
                    merges@,
                    (e.left, e.right),
                ),
            },
    {
        let entries = match sorted_compact_entries(merges) {
            Ok(Some(entries)) => entries,
            Ok(None) => return Ok(None),
            Err(e) => return Err(e),
        };
        if entries.len() == 0 {
            return Ok(Some(AdaptivePackedRuleTable::Flat(FlatPackedRuleTable { entries })));
        }
        let max_left = entries[entries.len() - 1].0.left();
        let offset_len = (max_left as usize).checked_add(2);
        // Each flat entry is two 64-bit words; each offset is one 32-bit word.
        let flat_payload_bytes = entries.len().checked_mul(16);
        let rule_count_fits_u32 = entries.len() <= u32::MAX as usize;
        // Bound CSR index memory by the payload size of the flat table, so sparse
        // high-left-id tables stay flat.
        match (offset_len, flat_payload_bytes) {
            (Some(offset_len), Some(flat_payload_bytes)) => {
                let offset_bytes = offset_len.checked_mul(4);
                let fits = match offset_bytes {
                    Some(offsets) => offsets <= flat_payload_bytes,
                    None => false,
                };
                if rule_count_fits_u32 && fits {
                    return Ok(
                        Some(
                            AdaptivePackedRuleTable::Csr(
                                CsrSoaRuleTable::from_sorted_entries(entries, offset_len),
                            ),
                        ),
                    );
                }
            },
            _ => {},
        }
        Ok(Some(AdaptivePackedRuleTable::Flat(FlatPackedRuleTable { entries })))
    }

    pub fn get(&self, left: u32, right: u32) -> (rule: Option<PackedRule>)
        requires
            self.well_formed(),
        ensures
            match rule {
                Some(r) => self.rules().contains_key((left as TokenId, right as TokenId))
                    && self.rules()[(left as TokenId, right as TokenId)] == (
                    r.spec_rank() as nat,
                    r.spec_output() as TokenId,
                ),
                None => !self.rules().contains_key((left as TokenId, right as TokenId)),
            },
    {
        match self {
            AdaptivePackedRuleTable::Csr(t) => t.get(left, right),
            AdaptivePackedRuleTable::Flat(t) => t.get(left, right),
        }
    }

    pub fn is_csr(&self) -> (b: bool)
        ensures
            b <==> self is Csr,
    {
        match self {
            AdaptivePackedRuleTable::Csr(_) => true,
            AdaptivePackedRuleTable::Flat(_) => false,
        }
    }

    pub fn is_empty(&self) -> (b: bool)
        requires
            self.well_formed(),
        ensures
            b <==> self.rules().is_empty(),
    {
        match self {
            AdaptivePackedRuleTable::Csr(t) => {
                proof {
                    lemma_entries_rule_map_at(t.entries@, 0);
                }
                false
            },
            AdaptivePackedRuleTable::Flat(t) => t.is_empty(),
        }
    }
}


/// Keys of a flat compact table are in the `u32` domain.
pub proof fn lemma_flat_keys_narrow(t: &FlatPackedRuleTable, left: TokenId, right: TokenId)
    requires
        left > u32::MAX || right > u32::MAX,
    ensures
        !t.rules().contains_key((left, right)),
{
}

/// Keys of an adaptive compact table are in the `u32` domain.
pub proof fn lemma_adaptive_keys_narrow(t: &AdaptivePackedRuleTable, left: TokenId, right: TokenId)
    requires
        left > u32::MAX || right > u32::MAX,
    ensures
        !t.rules().contains_key((left, right)),
{
}

} // verus!
