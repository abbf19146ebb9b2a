//! Read-only merge-rule lookup layouts for canonical rule tables: a flat
//! key-sorted array searched by bisection, and compressed sparse rows (CSR)
//! indexed by the left token id, with the right ids and rules either
//! interleaved (array of structs) or in separate columns (struct of arrays).
//! Every layout answers every pair-key query exactly as the rule map does.

use std::collections::BTreeMap;

use vstd::prelude::*;
use vstd::std_specs::iter::IteratorSpec;

use crate::byte_units::push_char;
use crate::decimal_text::{decimal_chars, push_decimal};
use crate::elastic_id::{PackedRule, PairKey, half_base, high_half, low_half};

verus! {

/// `u64` keys order a `BTreeMap` by their integer order.
proof fn lemma_u64_btree_keys()
    ensures
        vstd::std_specs::btree::key_obeys_cmp_spec::<u64>(),
        vstd::laws_cmp::obeys_cmp::<u64>(),
{
    broadcast use vstd::laws_cmp::group_laws_cmp;
    broadcast use vstd::std_specs::btree::group_btree_axioms;
}

/// An increasing key sequence of a `BTreeMap` with `u64` keys is strictly
/// increasing as integers.
proof fn lemma_increasing_u64_keys(keys: Seq<u64>)
    requires
        vstd::std_specs::btree::increasing_seq(keys),
    ensures
        forall|i: int, j: int| 0 <= i < j < keys.len() ==> keys[i] < keys[j],
{
    broadcast use vstd::laws_cmp::group_laws_cmp;
    broadcast use vstd::std_specs::btree::group_btree_axioms;
    lemma_u64_btree_keys();
    vstd::std_specs::btree::axiom_increasing_seq_meaning(keys);
    assert forall|i: int, j: int| 0 <= i < j < keys.len() implies keys[i] < keys[j] by {
        assert(vstd::std_specs::cmp::OrdSpec::cmp_spec(&keys[i], &keys[j]) is Less);
    }
}

/// A rule entry: a packed pair key and its packed rule.
pub type RuleEntry = (PairKey, PackedRule);

/// Key word of an entry.
pub open spec fn entry_key(e: RuleEntry) -> u64 {
    e.0.spec_raw()
}

/// Some entry has key `k`.
pub open spec fn has_key(entries: Seq<RuleEntry>, k: u64) -> bool {
    exists|i: int| 0 <= i < entries.len() && entry_key(#[trigger] entries[i]) == k
}

/// Two entries share key `k`.
pub open spec fn is_duplicated(entries: Seq<RuleEntry>, k: u64) -> bool {
    exists|i: int, j: int|
        0 <= i < j < entries.len() && entry_key(#[trigger] entries[i]) == k && entry_key(#[trigger] entries[j]) == k
}

/// `k` is the smallest duplicated key.
pub open spec fn is_smallest_duplicate(entries: Seq<RuleEntry>, k: u64) -> bool {
    is_duplicated(entries, k) && forall|k2: u64| k2 < k ==> !is_duplicated(entries, k2)
}

/// Keys strictly increase.
pub open spec fn keys_increasing(entries: Seq<RuleEntry>) -> bool {
    forall|i: int, j: int| 0 <= i < j < entries.len() ==> entry_key(entries[i]) < entry_key(entries[j])
}

/// The entries ordered by key: the same entries, each key once, ascending.
pub open spec fn is_sorted_form(sorted: Seq<RuleEntry>, entries: Seq<RuleEntry>) -> bool {
    &&& keys_increasing(sorted)
    &&& forall|e: RuleEntry| sorted.contains(e) <==> entries.contains(e)
}

/// The entries in key order, or the smallest duplicated key.
fn sort_entries(entries: &[RuleEntry]) -> (result: Result<Vec<RuleEntry>, u64>)
    ensures
        match result {
            Ok(sorted) => (forall|k: u64| !is_duplicated(entries@, k)) && is_sorted_form(sorted@, entries@),
            Err(k) => is_smallest_duplicate(entries@, k),
        },
{
    let mut map: BTreeMap<u64, RuleEntry> = BTreeMap::new();
    let mut smallest: Option<u64> = None;
    let mut i: usize = 0;
    while i < entries.len()
        invariant
            i <= entries.len(),
            forall|k: u64| #[trigger] map@.contains_key(k) <==> has_key(entries@.take(i as int), k),
            forall|k: u64| #[trigger] map@.contains_key(k) ==> entry_key(map@[k]) == k && entries@.take(i as int).contains(map@[k]),
            match smallest {
                Some(k) => is_smallest_duplicate(entries@.take(i as int), k),
                None => forall|k: u64| !is_duplicated(entries@.take(i as int), k),
            },
        decreases entries.len() - i,
    {
        let e = entries[i];
        let key = e.0.raw();
        let ghost pre = entries@.take(i as int);
        let ghost post = entries@.take(i + 1);
        assert(post =~= pre.push(e));
        let ghost old_map = map@;
        let previous = map.insert(key, e);
        proof {
            assert(map@ == old_map.insert(key, e));
            assert(post[i as int] == e);
            assert forall|k: u64| #[trigger] map@.contains_key(k) <==> has_key(post, k) by {
                if k != key && map@.contains_key(k) {
                    assert(old_map.contains_key(k));
                    assert(has_key(pre, k));
                    let j = choose|j: int| 0 <= j < pre.len() && entry_key(#[trigger] pre[j]) == k;
                    assert(post[j] == pre[j]);
                }
                if has_key(post, k) {
                    let j = choose|j: int| 0 <= j < post.len() && entry_key(#[trigger] post[j]) == k;
                    if j < i {
                        assert(pre[j] == post[j]);
                    }
                }
                if has_key(pre, k) {
                    let j = choose|j: int| 0 <= j < pre.len() && entry_key(#[trigger] pre[j]) == k;
                    assert(post[j] == pre[j]);
                }
            }
            assert forall|k: u64| #[trigger] map@.contains_key(k) implies entry_key(map@[k]) == k && post.contains(map@[k]) by {
                if k == key {
                    assert(post[i as int] == e);
                } else {
                    assert(old_map.contains_key(k) && map@[k] == old_map[k]);
                    let j = choose|j: int| 0 <= j < pre.len() && pre[j] == map@[k];
                    assert(post[j] == pre[j]);
                }
            }
        }
        if previous.is_some() {
            proof {
                assert(old_map.contains_key(key));
                assert(has_key(pre, key));
                let j = choose|j: int| 0 <= j < pre.len() && entry_key(#[trigger] pre[j]) == key;
                assert(post[j] == pre[j] && post[i as int] == e);
                assert(is_duplicated(post, key));
            }
            let better = match smallest {
                Some(k) => key < k,
                None => true,
            };
            if better {
                smallest = Some(key);
            }
        }
        proof {
            assert forall|k: u64| #[trigger] is_duplicated(post, k) implies is_duplicated(pre, k) || (k == key && has_key(pre, key)) by {
                let (a, b) = choose|a: int, b: int|
                    0 <= a < b < post.len() && entry_key(#[trigger] post[a]) == k && entry_key(#[trigger] post[b]) == k;
                if b < i {
                    assert(pre[a] == post[a] && pre[b] == post[b]);
                } else {
                    assert(pre[a] == post[a]);
                }
            }
            assert forall|k: u64| is_duplicated(pre, k) implies #[trigger] is_duplicated(post, k) by {
                let (a, b) = choose|a: int, b: int|
                    0 <= a < b < pre.len() && entry_key(#[trigger] pre[a]) == k && entry_key(#[trigger] pre[b]) == k;
                assert(post[a] == pre[a] && post[b] == pre[b]);
            }
        }
        i = i + 1;
    }
    assert(entries@.take(entries.len() as int) =~= entries@);
    if let Some(k) = smallest {
        return Err(k);
    }
    let mut sorted: Vec<RuleEntry> = Vec::new();
    let ghost r = vstd::std_specs::btree::spec_btree_map_iter(&map).remaining();
    proof {
        lemma_u64_btree_keys();
        vstd::std_specs::btree::axiom_spec_btree_map_iter(&map);
    }
    for kv in it: map.iter()
        invariant
            it.seq() == r,
            vstd::std_specs::btree::increasing_seq(r.map_values(|kv: (&u64, &RuleEntry)| *kv.0)),
            sorted@ == it.seq().take(it.index() as int).map_values(|kv: (&u64, &RuleEntry)| *kv.1),
    {
        sorted.push(*kv.1);
        proof {
            assert(sorted@ =~= it.seq().take(it.index() as int + 1).map_values(|kv: (&u64, &RuleEntry)| *kv.1));
        }
    }
    proof {
        assert(sorted@ =~= r.map_values(|kv: (&u64, &RuleEntry)| *kv.1));
        let keys = r.map_values(|kv: (&u64, &RuleEntry)| *kv.0);
        lemma_increasing_u64_keys(keys);
        assert forall|i: int| 0 <= i < sorted.len() implies entry_key(#[trigger] sorted@[i]) == keys[i] by {
            assert(map@.contains_key(*r[i].0) && map@[*r[i].0] == *r[i].1);
        }
        assert forall|a: int, b: int| 0 <= a < b < sorted.len() implies entry_key(sorted@[a]) < entry_key(sorted@[b]) by {
            assert(entry_key(sorted@[a]) == keys[a] && entry_key(sorted@[b]) == keys[b]);
        }
        assert forall|e: RuleEntry| sorted@.contains(e) <==> entries@.contains(e) by {
            if sorted@.contains(e) {
                let i = choose|i: int| 0 <= i < sorted.len() && sorted@[i] == e;
                assert(map@.contains_key(*r[i].0) && map@[*r[i].0] == *r[i].1);
            }
            if entries@.contains(e) {
                let i = choose|i: int| 0 <= i < entries.len() && entries@[i] == e;
                let k = entry_key(e);
                assert(has_key(entries@, k));
                assert(map@.contains_key(k));
                let m = map@[k];
                let j = choose|j: int| 0 <= j < entries.len() && entries@[j] == m;
                if i != j {
                    if i < j {
                        assert(is_duplicated(entries@, k));
                    } else {
                        assert(is_duplicated(entries@, k));
                    }
                }
                assert(r.contains((&k, &map@[k])));
                let q = choose|q: int| 0 <= q < r.len() && r[q] == (&k, &map@[k]);
                assert(sorted@[q] == e);
            }
        }
    }
    Ok(sorted)
}

/// `text` followed by the decimal digits of `n`.
fn message_with_number(text: &str, n: u64) -> (m: String)
    ensures
        m@ == text@ + decimal_chars(n as nat),
{
    let mut m = text.to_owned();
    push_decimal(&mut m, n);
    m
}

/// The rule of the entry with key `k`, if any.
pub open spec fn rule_for(entries: Seq<RuleEntry>, k: u64) -> Option<PackedRule> {
    if has_key(entries, k) {
        Some(entries[choose|i: int| 0 <= i < entries.len() && entry_key(#[trigger] entries[i]) == k].1)
    } else {
        None
    }
}

/// Every entry has its own key.
pub open spec fn keys_distinct(entries: Seq<RuleEntry>) -> bool {
    forall|k: u64| !is_duplicated(entries, k)
}

/// With distinct keys, an entry's rule is the rule for its key.
proof fn lemma_rule_for_entry(entries: Seq<RuleEntry>, i: int)
    requires
        keys_distinct(entries),
        0 <= i < entries.len(),
    ensures
        rule_for(entries, entry_key(entries[i])) == Some(entries[i].1),
{
    let k = entry_key(entries[i]);
    assert(has_key(entries, k));
    let j = choose|j: int| 0 <= j < entries.len() && entry_key(#[trigger] entries[j]) == k;
    if i < j {
        assert(is_duplicated(entries, k));
    } else if j < i {
        assert(is_duplicated(entries, k));
    }
}

/// Every layout built from entries with distinct keys answers every key as
/// the entries themselves do: a sorted form holds the same rule for each key.
pub proof fn lemma_sorted_form_rules(sorted: Seq<RuleEntry>, entries: Seq<RuleEntry>, k: u64)
    requires
        keys_distinct(entries),
        is_sorted_form(sorted, entries),
    ensures
        rule_for(sorted, k) == rule_for(entries, k),
{
    assert(keys_distinct(sorted)) by {
        assert forall|k2: u64| !is_duplicated(sorted, k2) by {
            if is_duplicated(sorted, k2) {
                let (a, b) = choose|a: int, b: int|
                    0 <= a < b < sorted.len() && entry_key(#[trigger] sorted[a]) == k2 && entry_key(#[trigger] sorted[b]) == k2;
            }
        }
    }
    if has_key(entries, k) {
        let i = choose|i: int| 0 <= i < entries.len() && entry_key(#[trigger] entries[i]) == k;
        lemma_rule_for_entry(entries, i);
        assert(entries.contains(entries[i]));
        assert(sorted.contains(entries[i]));
        let j = choose|j: int| 0 <= j < sorted.len() && sorted[j] == entries[i];
        lemma_rule_for_entry(sorted, j);
    } else if has_key(sorted, k) {
        let j = choose|j: int| 0 <= j < sorted.len() && entry_key(#[trigger] sorted[j]) == k;
        assert(sorted.contains(sorted[j]));
        let i = choose|i: int| 0 <= i < entries.len() && entries[i] == sorted[j];
        assert(has_key(entries, k));
    }
}

/// Merge rules in a key-sorted array searched by bisection.
#[derive(Clone, Debug)]
pub struct FlatRuleTable {
    entries: Vec<RuleEntry>,
}

impl FlatRuleTable {
    /// The table's entries, in key order.
    pub closed spec fn spec_entries(&self) -> Seq<RuleEntry> {
        self.entries@
    }

    /// Keys strictly increase.
    pub closed spec fn well_formed(&self) -> bool {
        keys_increasing(self.entries@)
    }

    /// Sorts the entries by key; a key held by two entries is reported, the
    /// smallest such key first.
    pub fn from_entries(entries: Vec<RuleEntry>) -> (result: Result<Self, String>)
        ensures
            match result {
                Ok(table) => keys_distinct(entries@) && table.well_formed() && is_sorted_form(
                    table.spec_entries(),
                    entries@,
                ),
                Err(m) => exists|k: u64| is_smallest_duplicate(entries@, k) && m@ == "duplicate merge pair key "@ + decimal_chars(k as nat),
            },
    {
        match sort_entries(entries.as_slice()) {
            Ok(sorted) => Ok(FlatRuleTable { entries: sorted }),
            Err(k) => Err(message_with_number("duplicate merge pair key ", k)),
        }
    }

    /// The rule stored under `key`.
    pub fn get(&self, key: PairKey) -> (rule: Option<PackedRule>)
        requires
            self.well_formed(),
        ensures
            rule == rule_for(self.spec_entries(), key.spec_raw()),
    {
        let target = key.raw();
        let mut lo: usize = 0;
        let mut hi: usize = self.entries.len();
        while lo < hi
            invariant
                keys_increasing(self.entries@),
                target == key.spec_raw(),
                lo <= hi <= self.entries.len(),
                forall|i: int| 0 <= i < lo ==> entry_key(#[trigger] self.entries@[i]) < target,
                forall|i: int| hi <= i < self.entries.len() ==> entry_key(#[trigger] self.entries@[i]) > target,
            decreases hi - lo,
        {
            let mid = lo + (hi - lo) / 2;
            let k = self.entries[mid].0.raw();
            if k == target {
                proof {
                    assert(keys_distinct(self.entries@)) by {
                        assert forall|k2: u64| !is_duplicated(self.entries@, k2) by {
                            if is_duplicated(self.entries@, k2) {
                                let (a, b) = choose|a: int, b: int|
                                    0 <= a < b < self.entries@.len() && entry_key(#[trigger] self.entries@[a]) == k2
                                        && entry_key(#[trigger] self.entries@[b]) == k2;
                            }
                        }
                    }
                    lemma_rule_for_entry(self.entries@, mid as int);
                }
                return Some(self.entries[mid].1);
            } else if k < target {
                lo = mid + 1;
            } else {
                hi = mid;
            }
        }
        proof {
            assert(!has_key(self.entries@, target)) by {
                if has_key(self.entries@, target) {
                    let i = choose|i: int| 0 <= i < self.entries@.len() && entry_key(#[trigger] self.entries@[i]) == target;
                }
            }
        }
        None
    }
}

/// Left token id of an entry's key.
pub open spec fn entry_left(e: RuleEntry) -> int {
    high_half(e.0.spec_raw()) as int
}

/// Right token id of an entry's key.
pub open spec fn entry_right(e: RuleEntry) -> u32 {
    low_half(e.0.spec_raw())
}

/// Number of entries whose left id is below `m`.
pub open spec fn count_below(s: Seq<RuleEntry>, m: int) -> nat
    decreases s.len(),
{
    if s.len() == 0 {
        0
    } else {
        count_below(s.drop_last(), m) + if entry_left(s.last()) < m { 1nat } else { 0nat }
    }
}

/// Number of entries whose left id is `l`.
pub open spec fn count_left(s: Seq<RuleEntry>, l: int) -> nat
    decreases s.len(),
{
    if s.len() == 0 {
        0
    } else {
        count_left(s.drop_last(), l) + if entry_left(s.last()) == l { 1nat } else { 0nat }
    }
}

/// A key is its high half times 2^32 plus its low half.
proof fn lemma_key_halves(k: u64)
    ensures
        k as int == high_half(k) as int * half_base() + low_half(k) as int,
        high_half(k) as int == k as int / half_base(),
{
    vstd::arithmetic::div_mod::lemma_fundamental_div_mod(k as int, half_base());
    assert(k as int / half_base() <= u32::MAX) by {
        vstd::arithmetic::div_mod::lemma_div_is_ordered(k as int, u64::MAX as int, half_base());
    }
}

/// Increasing keys have nondecreasing left ids, and increasing right ids
/// under one left id.
proof fn lemma_key_order(a: u64, b: u64)
    requires
        a < b,
    ensures
        high_half(a) <= high_half(b),
        high_half(a) == high_half(b) ==> low_half(a) < low_half(b),
{
    lemma_key_halves(a);
    lemma_key_halves(b);
    vstd::arithmetic::div_mod::lemma_div_is_ordered(a as int, b as int, half_base());
}

/// Counts below consecutive bounds differ by the count at the bound.
proof fn lemma_count_step(s: Seq<RuleEntry>, m: int)
    ensures
        count_below(s, m + 1) == count_below(s, m) + count_left(s, m),
        count_below(s, 0) == 0,
        count_below(s, m) <= s.len(),
    decreases s.len(),
{
    if s.len() > 0 {
        lemma_count_step(s.drop_last(), m);
    }
}

/// In key order, the entries whose left id is below `m` come first.
proof fn lemma_prefix_below(s: Seq<RuleEntry>, m: int)
    requires
        keys_increasing(s),
    ensures
        count_below(s, m) <= s.len(),
        forall|i: int| 0 <= i < count_below(s, m) ==> entry_left(#[trigger] s[i]) < m,
        forall|i: int| count_below(s, m) <= i < s.len() ==> entry_left(#[trigger] s[i]) >= m,
    decreases s.len(),
{
    if s.len() > 0 {
        let t = s.drop_last();
        assert(keys_increasing(t));
        lemma_prefix_below(t, m);
        lemma_count_step(t, m);
        if entry_left(s.last()) < m {
            assert forall|i: int| 0 <= i < s.len() implies entry_left(#[trigger] s[i]) < m by {
                if i < s.len() - 1 {
                    lemma_key_order(entry_key(s[i]), entry_key(s.last()));
                }
            }
            if count_below(t, m) < t.len() {
                assert(entry_left(t[count_below(t, m) as int]) >= m);
                assert(t[count_below(t, m) as int] == s[count_below(t, m) as int]);
            }
        } else {
            assert forall|i: int| count_below(s, m) <= i < s.len() implies entry_left(#[trigger] s[i]) >= m by {
                if i < s.len() - 1 {
                    assert(s[i] == t[i]);
                }
            }
            assert forall|i: int| 0 <= i < count_below(s, m) implies entry_left(#[trigger] s[i]) < m by {
                assert(s[i] == t[i]);
            }
        }
    }
}

/// Why compressed sparse rows cannot be built.
enum CsrBuildError {
    Duplicate(u64),
    LeftTooLarge(u32),
    DegreeOverflow,
    CountOverflow,
}

/// `l` is the smallest left id at or above `vocab_size`.
pub open spec fn is_smallest_bad_left(entries: Seq<RuleEntry>, vocab_size: int, l: int) -> bool {
    &&& l >= vocab_size
    &&& exists|i: int| 0 <= i < entries.len() && entry_left(#[trigger] entries[i]) == l
    &&& forall|i: int| 0 <= i < entries.len() && entry_left(#[trigger] entries[i]) >= vocab_size ==> entry_left(entries[i]) >= l
}

/// Every left id is below `vocab_size`.
pub open spec fn lefts_below(entries: Seq<RuleEntry>, vocab_size: int) -> bool {
    forall|i: int| 0 <= i < entries.len() ==> entry_left(#[trigger] entries[i]) < vocab_size
}

/// Row offsets: row `l` of the key-sorted entries spans
/// `offsets[l]..offsets[l + 1]`.
pub open spec fn csr_offsets(offsets: Seq<u32>, sorted: Seq<RuleEntry>, vocab_size: int) -> bool {
    &&& offsets.len() == vocab_size + 1
    &&& forall|m: int| 0 <= m <= vocab_size ==> #[trigger] offsets[m] == count_below(sorted, m)
}

/// Key-sorted entries and their row offsets.
fn build_csr(entries: &[RuleEntry], vocab_size: usize) -> (result: Result<(Vec<u32>, Vec<RuleEntry>), CsrBuildError>)
    requires
        vocab_size < usize::MAX,
    ensures
        match result {
            Ok((offsets, sorted)) => keys_distinct(entries@) && is_sorted_form(sorted@, entries@) && lefts_below(entries@, vocab_size as int)
                && csr_offsets(offsets@, sorted@, vocab_size as int) && sorted@.len() == count_below(sorted@, vocab_size as int),
            Err(CsrBuildError::Duplicate(k)) => is_smallest_duplicate(entries@, k),
            Err(CsrBuildError::LeftTooLarge(l)) => keys_distinct(entries@) && (entries@.len() <= u32::MAX ==> is_smallest_bad_left(entries@, vocab_size as int, l as int)),
            Err(_) => keys_distinct(entries@) && entries@.len() > u32::MAX,
        },
{
    let sorted = match sort_entries(entries) {
        Ok(sorted) => sorted,
        Err(k) => return Err(CsrBuildError::Duplicate(k)),
    };
    proof {
        lemma_sorted_len(sorted@, entries@);
    }
    let mut offsets: Vec<u32> = Vec::new();
    let mut m: usize = 0;
    while m <= vocab_size
        invariant
            m <= vocab_size + 1,
            vocab_size < usize::MAX,
            offsets.len() == m,
            forall|x: int| 0 <= x < m ==> offsets@[x] == 0u32,
        decreases vocab_size + 1 - m,
    {
        offsets.push(0);
        m = m + 1;
    }
    let mut j: usize = 0;
    while j < sorted.len()
        invariant
            j <= sorted.len(),
            vocab_size < usize::MAX,
            keys_increasing(sorted@),
            sorted@.len() <= entries@.len(),
            is_sorted_form(sorted@, entries@),
            keys_distinct(entries@),
            offsets.len() == vocab_size + 1,
            offsets@[0] == 0u32,
            forall|l: int| 0 <= l < vocab_size ==> #[trigger] offsets@[l + 1] == count_left(sorted@.take(j as int), l),
            forall|i: int| 0 <= i < j ==> entry_left(#[trigger] sorted@[i]) < vocab_size,
        decreases sorted.len() - j,
    {
        let left = sorted[j].0.left();
        let ghost pre = sorted@.take(j as int);
        let ghost post = sorted@.take(j + 1);
        assert(post.drop_last() =~= pre);
        assert(post.last() == sorted@[j as int]);
        if left as usize >= vocab_size {
            proof {
                assert(entries@.len() <= u32::MAX ==> is_smallest_bad_left(entries@, vocab_size as int, left as int)) by {
                    assert(sorted@.contains(sorted@[j as int]));
                    let q = choose|q: int| 0 <= q < entries@.len() && entries@[q] == sorted@[j as int];
                    assert(entry_left(entries@[q]) == left);
                    assert forall|i: int| 0 <= i < entries@.len() && entry_left(#[trigger] entries@[i]) >= vocab_size implies entry_left(entries@[i]) >= left by {
                        assert(entries@.contains(entries@[i]));
                        let r = choose|r: int| 0 <= r < sorted@.len() && sorted@[r] == entries@[i];
                        if r < j {
                        } else if r > j {
                            lemma_key_order(entry_key(sorted@[j as int]), entry_key(sorted@[r]));
                        }
                    }
                }
            }
            return Err(CsrBuildError::LeftTooLarge(left));
        }
        let slot = left as usize + 1;
        let current = offsets[slot];
        if current == u32::MAX {
            proof {
                lemma_count_left_bound(pre, left as int);
                lemma_sorted_len(sorted@, entries@);
            }
            return Err(CsrBuildError::DegreeOverflow);
        }
        offsets.set(slot, current + 1);
        proof {
            assert forall|l: int| 0 <= l < vocab_size implies #[trigger] offsets@[l + 1] == count_left(post, l) by {
                if l == left as int {
                } else {
                }
            }
        }
        j = j + 1;
    }
    assert(sorted@.take(sorted.len() as int) =~= sorted@);
    proof {
        lemma_count_step(sorted@, 0);
    }
    let mut idx: usize = 1;
    while idx <= vocab_size
        invariant
            1 <= idx <= vocab_size + 1,
            vocab_size < usize::MAX,
            keys_increasing(sorted@),
            offsets.len() == vocab_size + 1,
            sorted@.len() <= entries@.len(),
            keys_distinct(entries@),
            is_sorted_form(sorted@, entries@),
            forall|x: int| 0 <= x < idx ==> #[trigger] offsets@[x] == count_below(sorted@, x),
            forall|l: int| idx - 1 <= l < vocab_size ==> #[trigger] offsets@[l + 1] == count_left(sorted@, l),
        decreases vocab_size + 1 - idx,
    {
        proof {
            lemma_count_step(sorted@, idx - 1);
            lemma_count_step(sorted@, idx as int);
        }
        let sum = offsets[idx] as u64 + offsets[idx - 1] as u64;
        if sum > u32::MAX as u64 {
            return Err(CsrBuildError::CountOverflow);
        }
        offsets.set(idx, sum as u32);
        idx = idx + 1;
    }
    proof {
        lemma_count_step(sorted@, 0);
        assert forall|i: int| 0 <= i < entries@.len() implies entry_left(#[trigger] entries@[i]) < vocab_size by {
            assert(entries@.contains(entries@[i]));
            let r = choose|r: int| 0 <= r < sorted@.len() && sorted@[r] == entries@[i];
        }
        lemma_prefix_below(sorted@, vocab_size as int);
        if count_below(sorted@, vocab_size as int) < sorted@.len() {
            assert(entry_left(sorted@[count_below(sorted@, vocab_size as int) as int]) < vocab_size);
        }
    }
    Ok((offsets, sorted))
}

/// A sorted form has as many entries as its source.
proof fn lemma_sorted_len(sorted: Seq<RuleEntry>, entries: Seq<RuleEntry>)
    requires
        is_sorted_form(sorted, entries),
    ensures
        sorted.len() <= entries.len(),
{
    assert(sorted.no_duplicates()) by {
        assert forall|a: int, b: int| 0 <= a < sorted.len() && 0 <= b < sorted.len() && a != b implies sorted[a] != sorted[b] by {
            if a < b {
            } else {
            }
        }
    }
    let f = |e: RuleEntry| e;
    assert(sorted.to_set().subset_of(entries.to_set())) by {
        assert forall|e: RuleEntry| sorted.to_set().contains(e) implies entries.to_set().contains(e) by {
            assert(sorted.contains(e));
        }
    }
    sorted.unique_seq_to_set();
    vstd::set_lib::lemma_len_subset(sorted.to_set(), entries.to_set());
    entries.lemma_cardinality_of_set();
}

/// A count never exceeds the number of entries.
proof fn lemma_count_left_bound(s: Seq<RuleEntry>, l: int)
    ensures
        count_left(s, l) <= s.len(),
    decreases s.len(),
{
    if s.len() > 0 {
        lemma_count_left_bound(s.drop_last(), l);
    }
}

/// Row `l` of the key-sorted entries holds exactly the entries with left id
/// `l`.
proof fn lemma_row_bounds(sorted: Seq<RuleEntry>, l: int)
    requires
        keys_increasing(sorted),
    ensures
        count_below(sorted, l) <= count_below(sorted, l + 1) <= sorted.len(),
        forall|i: int| 0 <= i < sorted.len() ==> (count_below(sorted, l) <= i < count_below(sorted, l + 1)
            <==> entry_left(#[trigger] sorted[i]) == l),
{
    lemma_prefix_below(sorted, l);
    lemma_prefix_below(sorted, l + 1);
    lemma_count_step(sorted, l);
}

/// Within one row, right ids strictly increase.
proof fn lemma_row_rights(sorted: Seq<RuleEntry>, a: int, b: int)
    requires
        keys_increasing(sorted),
        0 <= a < b < sorted.len(),
        entry_left(sorted[a]) == entry_left(sorted[b]),
    ensures
        entry_right(sorted[a]) < entry_right(sorted[b]),
{
    lemma_key_order(entry_key(sorted[a]), entry_key(sorted[b]));
}

/// An entry whose halves match a query's has the query's key.
proof fn lemma_same_halves(e: RuleEntry, key: PairKey)
    requires
        entry_left(e) == key.spec_left() as int,
        entry_right(e) == key.spec_right(),
    ensures
        entry_key(e) == key.spec_raw(),
{
    lemma_key_halves(entry_key(e));
    lemma_key_halves(key.spec_raw());
}

/// Keys distinct in a key-increasing sequence.
proof fn lemma_increasing_distinct(sorted: Seq<RuleEntry>)
    requires
        keys_increasing(sorted),
    ensures
        keys_distinct(sorted),
{
    assert forall|k: u64| !is_duplicated(sorted, k) by {
        if is_duplicated(sorted, k) {
            let (a, b) = choose|a: int, b: int|
                0 <= a < b < sorted.len() && entry_key(#[trigger] sorted[a]) == k && entry_key(#[trigger] sorted[b]) == k;
        }
    }
}

/// The row `left` of a CSR layout, as `(start, end)`, if `left` has a row.
fn row_range(offsets: &Vec<u32>, left: u32) -> (range: Option<(usize, usize)>)
    ensures
        match range {
            Some((start, end)) => (left as int) + 1 < offsets.len() && start == offsets@[left as int] && end
                == offsets@[left + 1],
            None => (left as int) + 1 >= offsets.len(),
        },
{
    let left = left as usize;
    if offsets.len() == 0 || left >= offsets.len() - 1 {
        return None;
    }
    Some((offsets[left] as usize, offsets[left + 1] as usize))
}

/// Merge rules in compressed sparse rows: row `l` holds the right ids and
/// rules of the pairs with left id `l`, in right-id order.
#[derive(Clone)]
pub struct CsrRuleTable {
    offsets: Vec<u32>,
    entries: Vec<(u32, PackedRule)>,
    sorted: Ghost<Seq<RuleEntry>>,
}

/// The row layout of key-sorted entries under `offsets`.
pub open spec fn csr_layout(offsets: Seq<u32>, rows: Seq<(u32, PackedRule)>, sorted: Seq<RuleEntry>) -> bool {
    &&& offsets.len() >= 1
    &&& keys_increasing(sorted)
    &&& csr_offsets(offsets, sorted, offsets.len() - 1)
    &&& sorted.len() == count_below(sorted, offsets.len() - 1)
    &&& rows.len() == sorted.len()
    &&& forall|i: int| 0 <= i < rows.len() ==> #[trigger] rows[i] == (entry_right(sorted[i]), sorted[i].1)
}

/// `prefix`, the left id, and the vocabulary size it exceeds.
fn left_message(prefix: &str, left: u32, vocab_size: usize) -> (m: String)
    ensures
        m@ == prefix@ + decimal_chars(left as nat) + " exceeds vocab size "@ + decimal_chars(vocab_size as nat),
{
    let mut m = message_with_number(prefix, left as u64);
    let tail = message_with_number(" exceeds vocab size ", vocab_size as u64);
    let mut k: usize = 0;
    let ghost head = m@;
    let tail_chars = crate::elastic_text_tokenizer::chars_of(tail.as_str());
    while k < tail_chars.len()
        invariant
            k <= tail_chars.len(),
            m@ == head + tail_chars@.take(k as int),
        decreases tail_chars.len() - k,
    {
        push_char(&mut m, tail_chars[k]);
        assert(m@ =~= head + tail_chars@.take(k + 1));
        k = k + 1;
    }
    assert(tail_chars@.take(tail_chars.len() as int) =~= tail_chars@);
    assert(m@ =~= prefix@ + decimal_chars(left as nat) + " exceeds vocab size "@ + decimal_chars(vocab_size as nat));
    m
}

/// Row `left` of key-sorted entries: the right ids and rules of the pairs
/// with that left id, in right-id order.
pub open spec fn row_of(sorted: Seq<RuleEntry>, left: int) -> Seq<(u32, PackedRule)> {
    sorted.subrange(count_below(sorted, left) as int, count_below(sorted, left + 1) as int).map_values(
        |e: RuleEntry| (entry_right(e), e.1),
    )
}

impl CsrRuleTable {
    /// The table's entries, in key order.
    pub closed spec fn spec_entries(&self) -> Seq<RuleEntry> {
        self.sorted@
    }

    pub closed spec fn well_formed(&self) -> bool {
        csr_layout(self.offsets@, self.entries@, self.sorted@)
    }

    /// Builds the rows. Errors, in order: an empty vocabulary; the smallest
    /// key held by two entries; the smallest left id outside the vocabulary;
    /// a row or the whole table too large for 32-bit offsets.
    pub fn from_entries(entries: Vec<RuleEntry>, vocab_size: usize) -> (result: Result<Self, String>)
        requires
            vocab_size < usize::MAX,
        ensures
            vocab_size == 0 ==> (result matches Err(m) && m@ == "vocab must not be empty"@),
            vocab_size > 0 ==> (forall|k: u64| is_smallest_duplicate(entries@, k) ==> (result matches Err(m)
                && m@ == "duplicate merge pair key "@ + decimal_chars(k as nat))),
            vocab_size > 0 && keys_distinct(entries@) && entries@.len() <= u32::MAX ==> (forall|l: int|
                is_smallest_bad_left(entries@, vocab_size as int, l) ==> (result matches Err(m) && m@
                == "left token id "@ + decimal_chars(l as nat) + " exceeds vocab size "@ + decimal_chars(vocab_size as nat))),
            vocab_size > 0 && keys_distinct(entries@) && lefts_below(entries@, vocab_size as int) && entries@.len() <= u32::MAX ==> result is Ok,
            match result {
                Ok(table) => vocab_size > 0 && keys_distinct(entries@) && lefts_below(entries@, vocab_size as int)
                    && table.well_formed() && is_sorted_form(table.spec_entries(), entries@),
                Err(_) => true,
            },
    {
        if vocab_size == 0 {
            return Err("vocab must not be empty".to_owned());
        }
        match build_csr(entries.as_slice(), vocab_size) {
            Ok((offsets, sorted)) => {
                let mut rows: Vec<(u32, PackedRule)> = Vec::new();
                let mut i: usize = 0;
                while i < sorted.len()
                    invariant
                        i <= sorted.len(),
                        rows.len() == i,
                        forall|j: int| 0 <= j < i ==> #[trigger] rows@[j] == (entry_right(sorted@[j]), sorted@[j].1),
                    decreases sorted.len() - i,
                {
                    rows.push((sorted[i].0.right(), sorted[i].1));
                    i = i + 1;
                }
                Ok(CsrRuleTable { offsets, entries: rows, sorted: Ghost(sorted@) })
            },
            Err(CsrBuildError::Duplicate(k)) => {
                proof {
                    assert forall|k2: u64| is_smallest_duplicate(entries@, k2) implies k2 == k by {
                        if k2 < k {
                        } else if k < k2 {
                        }
                    }
                }
                Err(message_with_number("duplicate merge pair key ", k))
            },
            Err(CsrBuildError::LeftTooLarge(l)) => {
                proof {
                    assert forall|l2: int| entries@.len() <= u32::MAX && is_smallest_bad_left(entries@, vocab_size as int, l2) implies l2 == l as int by {
                        let i = choose|i: int| 0 <= i < entries@.len() && entry_left(#[trigger] entries@[i]) == l2;
                        let j = choose|j: int| 0 <= j < entries@.len() && entry_left(#[trigger] entries@[j]) == l as int;
                        assert(entry_left(entries@[i]) >= l as int);
                        assert(entry_left(entries@[j]) >= l2);
                    }
                }
                Err(left_message("left token id ", l, vocab_size))
            },
            Err(CsrBuildError::DegreeOverflow) => Err("CSR degree exceeds u32".to_owned()),
            Err(CsrBuildError::CountOverflow) => Err("CSR rule count exceeds u32".to_owned()),
        }
    }

    /// Row of `left`: the right ids and rules of its pairs, in right-id
    /// order; empty when `left` has no row.
    pub fn slice(&self, left: u32) -> (row: &[(u32, PackedRule)])
        requires
            self.well_formed(),
        ensures
            row@ == row_of(self.spec_entries(), left as int),
    {
        let ghost sorted = self.sorted@;
        proof {
            lemma_row_bounds(sorted, left as int);
        }
        match row_range(&self.offsets, left) {
            Some((start, end)) => {
                let row = vstd::slice::slice_subrange(self.entries.as_slice(), start, end);
                assert(row@ =~= row_of(sorted, left as int));
                row
            },
            None => {
                proof {
                    let v = self.offsets@.len() - 1;
                    lemma_prefix_below(sorted, v);
                    lemma_prefix_below(sorted, left as int);
                    lemma_prefix_below(sorted, left + 1);
                    if count_below(sorted, left as int) < sorted.len() {
                        assert(entry_left(sorted[count_below(sorted, left as int) as int]) < v);
                    }
                    if count_below(sorted, left + 1) < sorted.len() {
                        assert(entry_left(sorted[count_below(sorted, left + 1) as int]) < v);
                    }
                    assert(row_of(sorted, left as int) =~= Seq::<(u32, PackedRule)>::empty());
                }
                vstd::slice::slice_subrange(self.entries.as_slice(), 0, 0)
            },
        }
    }

    /// Rule of `key`, by bisection of its left id's row.
    pub fn get_binary(&self, key: PairKey) -> (rule: Option<PackedRule>)
        requires
            self.well_formed(),
        ensures
            rule == rule_for(self.spec_entries(), key.spec_raw()),
    {
        let ghost sorted = self.sorted@;
        let left = key.left();
        let right = key.right();
        proof {
            lemma_row_bounds(sorted, left as int);
            lemma_increasing_distinct(sorted);
        }
        let (start, end) = match row_range(&self.offsets, left) {
            Some(r) => r,
            None => {
                proof {
                    self.lemma_no_row(key);
                }
                return None;
            },
        };
        let mut lo: usize = start;
        let mut hi: usize = end;
        while lo < hi
            invariant
                csr_layout(self.offsets@, self.entries@, sorted),
                sorted == self.sorted@,
                start <= lo <= hi <= end <= self.entries@.len(),
                start == count_below(sorted, left as int),
                end == count_below(sorted, left + 1),
                forall|i: int| 0 <= i < sorted.len() ==> (count_below(sorted, left as int) <= i < count_below(sorted, left + 1)
                    <==> entry_left(#[trigger] sorted[i]) == left as int),
                left == key.spec_left(),
                right == key.spec_right(),
                forall|i: int| start <= i < lo ==> entry_right(#[trigger] sorted[i]) < right,
                forall|i: int| hi <= i < end ==> entry_right(#[trigger] sorted[i]) > right,
            decreases hi - lo,
        {
            let mid = lo + (hi - lo) / 2;
            let (candidate, rule) = self.entries[mid];
            assert(self.entries@[mid as int] == (entry_right(sorted[mid as int]), sorted[mid as int].1));
            if candidate == right {
                proof {
                    lemma_same_halves(sorted[mid as int], key);
                    lemma_rule_for_entry(sorted, mid as int);
                }
                return Some(rule);
            } else if candidate < right {
                proof {
                    assert forall|i: int| start <= i < mid + 1 implies entry_right(#[trigger] sorted[i]) < right by {
                        if i < mid {
                            lemma_row_rights(sorted, i, mid as int);
                        }
                    }
                }
                lo = mid + 1;
            } else {
                proof {
                    assert forall|i: int| mid <= i < end implies entry_right(#[trigger] sorted[i]) > right by {
                        if i > mid {
                            lemma_row_rights(sorted, mid as int, i);
                        }
                    }
                }
                hi = mid;
            }
        }
        proof {
            self.lemma_absent_in_row(key);
        }
        None
    }

    /// Rule of `key`, by a linear scan of its left id's row.
    pub fn get_linear(&self, key: PairKey) -> (rule: Option<PackedRule>)
        requires
            self.well_formed(),
        ensures
            rule == rule_for(self.spec_entries(), key.spec_raw()),
    {
        let ghost sorted = self.sorted@;
        let left = key.left();
        let right = key.right();
        proof {
            lemma_row_bounds(sorted, left as int);
            lemma_increasing_distinct(sorted);
        }
        let (start, end) = match row_range(&self.offsets, left) {
            Some(r) => r,
            None => {
                proof {
                    self.lemma_no_row(key);
                }
                return None;
            },
        };
        let mut i: usize = start;
        while i < end
            invariant
                csr_layout(self.offsets@, self.entries@, sorted),
                sorted == self.sorted@,
                start <= i <= end <= self.entries@.len(),
                start == count_below(sorted, left as int),
                end == count_below(sorted, left + 1),
                left == key.spec_left(),
                right == key.spec_right(),
                forall|q: int| 0 <= q < sorted.len() ==> (count_below(sorted, left as int) <= q < count_below(sorted, left + 1)
                    <==> entry_left(#[trigger] sorted[q]) == left as int),
                forall|j: int| start <= j < i ==> entry_right(#[trigger] sorted[j]) != right,
            decreases end - i,
        {
            let (candidate, rule) = self.entries[i];
            assert(self.entries@[i as int] == (entry_right(sorted[i as int]), sorted[i as int].1));
            if candidate == right {
                proof {
                    assert(entry_left(sorted[i as int]) == left as int);
                    lemma_same_halves(sorted[i as int], key);
                    lemma_rule_for_entry(sorted, i as int);
                }
                return Some(rule);
            }
            i = i + 1;
        }
        proof {
            self.lemma_absent_in_row(key);
        }
        None
    }

    /// A key whose left id has no row has no rule.
    proof fn lemma_no_row(&self, key: PairKey)
        requires
            self.well_formed(),
            (key.spec_left() as int) + 1 >= self.offsets@.len(),
        ensures
            rule_for(self.spec_entries(), key.spec_raw()) is None,
    {
        let sorted = self.sorted@;
        let v = self.offsets@.len() - 1;
        lemma_prefix_below(sorted, v);
        if has_key(sorted, key.spec_raw()) {
            let i = choose|i: int| 0 <= i < sorted.len() && entry_key(#[trigger] sorted[i]) == key.spec_raw();
            assert(entry_left(sorted[i]) < v);
        }
    }

    /// A key absent from its row has no rule.
    proof fn lemma_absent_in_row(&self, key: PairKey)
        requires
            self.well_formed(),
            (key.spec_left() as int) + 1 < self.offsets@.len(),
            forall|i: int| count_below(self.sorted@, key.spec_left() as int) <= i < count_below(self.sorted@, key.spec_left() + 1)
                ==> entry_right(#[trigger] self.sorted@[i]) != key.spec_right(),
        ensures
            rule_for(self.spec_entries(), key.spec_raw()) is None,
    {
        let sorted = self.sorted@;
        lemma_row_bounds(sorted, key.spec_left() as int);
        if has_key(sorted, key.spec_raw()) {
            let i = choose|i: int| 0 <= i < sorted.len() && entry_key(#[trigger] sorted[i]) == key.spec_raw();
            lemma_key_halves(key.spec_raw());
            assert(entry_left(sorted[i]) == key.spec_left() as int);
            assert(entry_right(sorted[i]) == key.spec_right());
        }
    }
}

/// Compressed sparse rows with interleaved right ids and rules.
#[derive(Clone)]
pub struct CsrAos {
    table: CsrRuleTable,
}

/// Compressed sparse rows with right ids and rules in separate columns.
#[derive(Clone)]
pub struct CsrSoa {
    offsets: Vec<u32>,
    rights: Vec<u32>,
    rules: Vec<PackedRule>,
    sorted: Ghost<Seq<RuleEntry>>,
}

/// Outcome of building rows of either layout: the offsets and key-sorted
/// entries, or the error message.
fn build_rows(entries: &[RuleEntry], vocab_size: usize) -> (result: Result<(Vec<u32>, Vec<RuleEntry>), String>)
    requires
        vocab_size < usize::MAX,
    ensures
        forall|k: u64| is_smallest_duplicate(entries@, k) ==> (result matches Err(m) && m@
            == "duplicate merge pair key "@ + decimal_chars(k as nat)),
        keys_distinct(entries@) && entries@.len() <= u32::MAX ==> (forall|l: int| is_smallest_bad_left(entries@, vocab_size as int, l)
            ==> (result matches Err(m) && m@ == "left id "@ + decimal_chars(l as nat) + " exceeds vocab size "@ + decimal_chars(vocab_size as nat))),
        keys_distinct(entries@) && lefts_below(entries@, vocab_size as int) && entries@.len() <= u32::MAX ==> result is Ok,
        match result {
            Ok((offsets, sorted)) => keys_distinct(entries@) && is_sorted_form(sorted@, entries@) && lefts_below(entries@, vocab_size as int)
                && csr_offsets(offsets@, sorted@, vocab_size as int) && sorted@.len() == count_below(sorted@, vocab_size as int),
            Err(_) => true,
        },
{
    match build_csr(entries, vocab_size) {
        Ok(built) => Ok(built),
        Err(CsrBuildError::Duplicate(k)) => {
            proof {
                assert forall|k2: u64| is_smallest_duplicate(entries@, k2) implies k2 == k by {
                    if k2 < k {
                    } else if k < k2 {
                    }
                }
            }
            Err(message_with_number("duplicate merge pair key ", k))
        },
        Err(CsrBuildError::LeftTooLarge(l)) => {
            proof {
                assert forall|l2: int| entries@.len() <= u32::MAX && is_smallest_bad_left(entries@, vocab_size as int, l2) implies l2 == l as int by {
                    let i = choose|i: int| 0 <= i < entries@.len() && entry_left(#[trigger] entries@[i]) == l2;
                    let j = choose|j: int| 0 <= j < entries@.len() && entry_left(#[trigger] entries@[j]) == l as int;
                    assert(entry_left(entries@[i]) >= l as int);
                    assert(entry_left(entries@[j]) >= l2);
                }
            }
            Err(left_message("left id ", l, vocab_size))
        },
        Err(CsrBuildError::DegreeOverflow) => Err("CSR degree exceeds u32".to_owned()),
        Err(CsrBuildError::CountOverflow) => Err("CSR rule count exceeds u32".to_owned()),
    }
}

impl CsrAos {
    /// The table's entries, in key order.
    pub closed spec fn spec_entries(&self) -> Seq<RuleEntry> {
        self.table.spec_entries()
    }

    pub closed spec fn well_formed(&self) -> bool {
        self.table.well_formed()
    }

    /// Builds the rows; errors as for the column layout.
    pub fn build(entries: &[RuleEntry], vocab_size: usize) -> (result: Result<Self, String>)
        requires
            vocab_size < usize::MAX,
        ensures
            forall|k: u64| is_smallest_duplicate(entries@, k) ==> (result matches Err(m) && m@
                == "duplicate merge pair key "@ + decimal_chars(k as nat)),
            keys_distinct(entries@) && entries@.len() <= u32::MAX ==> (forall|l: int| is_smallest_bad_left(entries@, vocab_size as int, l)
                ==> (result matches Err(m) && m@ == "left id "@ + decimal_chars(l as nat) + " exceeds vocab size "@ + decimal_chars(vocab_size as nat))),
            keys_distinct(entries@) && lefts_below(entries@, vocab_size as int) && entries@.len() <= u32::MAX ==> result is Ok,
            match result {
                Ok(table) => table.well_formed() && is_sorted_form(table.spec_entries(), entries@),
                Err(_) => true,
            },
    {
        let (offsets, sorted) = match build_rows(entries, vocab_size) {
            Ok(built) => built,
            Err(m) => return Err(m),
        };
        let mut rows: Vec<(u32, PackedRule)> = Vec::new();
        let mut i: usize = 0;
        while i < sorted.len()
            invariant
                i <= sorted.len(),
                rows.len() == i,
                forall|j: int| 0 <= j < i ==> #[trigger] rows@[j] == (entry_right(sorted@[j]), sorted@[j].1),
            decreases sorted.len() - i,
        {
            rows.push((sorted[i].0.right(), sorted[i].1));
            i = i + 1;
        }
        Ok(CsrAos { table: CsrRuleTable { offsets, entries: rows, sorted: Ghost(sorted@) } })
    }

    /// Rule of `key`, by bisection of its left id's row.
    pub fn get(&self, key: PairKey) -> (rule: Option<PackedRule>)
        requires
            self.well_formed(),
        ensures
            rule == rule_for(self.spec_entries(), key.spec_raw()),
    {
        self.table.get_binary(key)
    }
}

/// The column layout of key-sorted entries under `offsets`.
pub open spec fn csr_columns(offsets: Seq<u32>, rights: Seq<u32>, rules: Seq<PackedRule>, sorted: Seq<RuleEntry>) -> bool {
    &&& offsets.len() >= 1
    &&& keys_increasing(sorted)
    &&& csr_offsets(offsets, sorted, offsets.len() - 1)
    &&& sorted.len() == count_below(sorted, offsets.len() - 1)
    &&& rights.len() == sorted.len()
    &&& rules.len() == sorted.len()
    &&& forall|i: int| 0 <= i < rights.len() ==> #[trigger] rights[i] == entry_right(sorted[i])
    &&& forall|i: int| 0 <= i < rules.len() ==> #[trigger] rules[i] == sorted[i].1
}

impl CsrSoa {
    /// The table's entries, in key order.
    pub closed spec fn spec_entries(&self) -> Seq<RuleEntry> {
        self.sorted@
    }

    pub closed spec fn well_formed(&self) -> bool {
        csr_columns(self.offsets@, self.rights@, self.rules@, self.sorted@)
    }

    /// Builds the columns; errors as for the interleaved layout.
    pub fn build(entries: &[RuleEntry], vocab_size: usize) -> (result: Result<Self, String>)
        requires
            vocab_size < usize::MAX,
        ensures
            forall|k: u64| is_smallest_duplicate(entries@, k) ==> (result matches Err(m) && m@
                == "duplicate merge pair key "@ + decimal_chars(k as nat)),
            keys_distinct(entries@) && entries@.len() <= u32::MAX ==> (forall|l: int| is_smallest_bad_left(entries@, vocab_size as int, l)
                ==> (result matches Err(m) && m@ == "left id "@ + decimal_chars(l as nat) + " exceeds vocab size "@ + decimal_chars(vocab_size as nat))),
            keys_distinct(entries@) && lefts_below(entries@, vocab_size as int) && entries@.len() <= u32::MAX ==> result is Ok,
            match result {
                Ok(table) => table.well_formed() && is_sorted_form(table.spec_entries(), entries@),
                Err(_) => true,
            },
    {
        let (offsets, sorted) = match build_rows(entries, vocab_size) {
            Ok(built) => built,
            Err(m) => return Err(m),
        };
        let mut rights: Vec<u32> = Vec::new();
        let mut rules: Vec<PackedRule> = Vec::new();
        let mut i: usize = 0;
        while i < sorted.len()
            invariant
                i <= sorted.len(),
                rights.len() == i,
                rules.len() == i,
                forall|j: int| 0 <= j < i ==> #[trigger] rights@[j] == entry_right(sorted@[j]),
                forall|j: int| 0 <= j < i ==> #[trigger] rules@[j] == sorted@[j].1,
            decreases sorted.len() - i,
        {
            rights.push(sorted[i].0.right());
            rules.push(sorted[i].1);
            i = i + 1;
        }
        Ok(CsrSoa { offsets, rights, rules, sorted: Ghost(sorted@) })
    }

    /// Rule of `key`, by bisection of the right-id column of its row.
    pub fn get(&self, key: PairKey) -> (rule: Option<PackedRule>)
        requires
            self.well_formed(),
        ensures
            rule == rule_for(self.spec_entries(), key.spec_raw()),
    {
        let ghost sorted = self.sorted@;
        let left = key.left();
        let right = key.right();
        proof {
            lemma_row_bounds(sorted, left as int);
            lemma_increasing_distinct(sorted);
        }
        let (start, end) = match row_range(&self.offsets, left) {
            Some(r) => r,
            None => {
                proof {
                    let v = self.offsets@.len() - 1;
                    lemma_prefix_below(sorted, v);
                    if has_key(sorted, key.spec_raw()) {
                        let i = choose|i: int| 0 <= i < sorted.len() && entry_key(#[trigger] sorted[i]) == key.spec_raw();
                        lemma_key_halves(key.spec_raw());
                        assert(entry_left(sorted[i]) < v);
                    }
                }
                return None;
            },
        };
        let mut lo: usize = start;
        let mut hi: usize = end;
        while lo < hi
            invariant
                csr_columns(self.offsets@, self.rights@, self.rules@, sorted),
                sorted == self.sorted@,
                start <= lo <= hi <= end <= self.rights@.len(),
                start == count_below(sorted, left as int),
                end == count_below(sorted, left + 1),
                forall|i: int| 0 <= i < sorted.len() ==> (count_below(sorted, left as int) <= i < count_below(sorted, left + 1)
                    <==> entry_left(#[trigger] sorted[i]) == left as int),
                left == key.spec_left(),
                right == key.spec_right(),
                forall|i: int| start <= i < lo ==> entry_right(#[trigger] sorted[i]) < right,
                forall|i: int| hi <= i < end ==> entry_right(#[trigger] sorted[i]) > right,
            decreases hi - lo,
        {
            let mid = lo + (hi - lo) / 2;
            let candidate = self.rights[mid];
            if candidate == right {
                proof {
                    lemma_same_halves(sorted[mid as int], key);
                    lemma_rule_for_entry(sorted, mid as int);
                }
                return Some(self.rules[mid]);
            } else if candidate < right {
                proof {
                    assert forall|i: int| start <= i < mid + 1 implies entry_right(#[trigger] sorted[i]) < right by {
                        if i < mid {
                            lemma_row_rights(sorted, i, mid as int);
                        }
                    }
                }
                lo = mid + 1;
            } else {
                proof {
                    assert forall|i: int| mid <= i < end implies entry_right(#[trigger] sorted[i]) > right by {
                        if i > mid {
                            lemma_row_rights(sorted, mid as int, i);
                        }
                    }
                }
                hi = mid;
            }
        }
        proof {
            if has_key(sorted, key.spec_raw()) {
                let i = choose|i: int| 0 <= i < sorted.len() && entry_key(#[trigger] sorted[i]) == key.spec_raw();
                lemma_key_halves(key.spec_raw());
                assert(entry_left(sorted[i]) == key.spec_left() as int);
                assert(entry_right(sorted[i]) == key.spec_right());
            }
        }
        None
    }
}

/// Each query with its right id shifted by the golden-ratio constant, so
/// that about half of the queries miss.
pub fn build_queries(entries: &[RuleEntry]) -> (queries: Vec<PairKey>)
    requires
        2 * entries.len() <= usize::MAX,
    ensures
        queries.len() == 2 * entries.len(),
        forall|i: int| 0 <= i < entries.len() ==> #[trigger] queries@[2 * i] == entries@[i].0,
        forall|i: int| 0 <= i < entries.len() ==> (#[trigger] queries@[2 * i + 1]).spec_left() == entries@[i].0.spec_left()
            && queries@[2 * i + 1].spec_right() == ((entries@[i].0.spec_right() as int + 0x9e37_79b9) % 0x1_0000_0000) as u32,
{
    let mut queries: Vec<PairKey> = Vec::new();
    let mut i: usize = 0;
    while i < entries.len()
        invariant
            i <= entries.len(),
            2 * entries.len() <= usize::MAX,
            queries.len() == 2 * i,
            forall|j: int| 0 <= j < i ==> #[trigger] queries@[2 * j] == entries@[j].0,
            forall|j: int| 0 <= j < i ==> (#[trigger] queries@[2 * j + 1]).spec_left() == entries@[j].0.spec_left()
                && queries@[2 * j + 1].spec_right() == ((entries@[j].0.spec_right() as int + 0x9e37_79b9) % 0x1_0000_0000) as u32,
        decreases entries.len() - i,
    {
        let key = entries[i].0;
        queries.push(key);
        let shifted = key.right().wrapping_add(0x9e37_79b9);
        queries.push(PairKey::new(key.left(), shifted));
        proof {
            assert(queries@[2 * (i as int)] == key);
        }
        i = i + 1;
    }
    queries
}

/// The two entry lists answer the rule lookup for `key` alike.
pub open spec fn same_answer(a: Seq<RuleEntry>, b: Seq<RuleEntry>, key: PairKey) -> bool {
    rule_for(a, key.spec_raw()) == rule_for(b, key.spec_raw())
}

/// Query `i` is the first of `queries` on which the two entry lists answer
/// differently.
pub open spec fn first_differing_query(
    a: Seq<RuleEntry>,
    b: Seq<RuleEntry>,
    queries: Seq<PairKey>,
    i: int,
) -> bool {
    &&& 0 <= i < queries.len()
    &&& !same_answer(a, b, queries[i])
    &&& forall|j: int| 0 <= j < i ==> same_answer(a, b, #[trigger] queries[j])
}

/// The rule map answers the lookup for `key` as the entry list does.
pub open spec fn map_same_answer(tree: Map<u64, PackedRule>, entries: Seq<RuleEntry>, key: PairKey) -> bool {
    tree.get(key.spec_raw()) == rule_for(entries, key.spec_raw())
}

/// Query `i` is the first of `queries` on which the rule map and the entry
/// list answer differently.
pub open spec fn first_map_differing_query(
    tree: Map<u64, PackedRule>,
    entries: Seq<RuleEntry>,
    queries: Seq<PairKey>,
    i: int,
) -> bool {
    &&& 0 <= i < queries.len()
    &&& !map_same_answer(tree, entries, queries[i])
    &&& forall|j: int| 0 <= j < i ==> map_same_answer(tree, entries, #[trigger] queries[j])
}

/// Whether the interleaved and column layouts answer every query alike.
pub fn layouts_agree(aos: &CsrAos, soa: &CsrSoa, queries: &[PairKey]) -> (agree: bool)
    requires
        aos.well_formed(),
        soa.well_formed(),
    ensures
        agree <==> forall|i: int|
            0 <= i < queries.len() ==> same_answer(aos.spec_entries(), soa.spec_entries(), #[trigger] queries@[i]),
{
    let mut i: usize = 0;
    while i < queries.len()
        invariant
            i <= queries.len(),
            aos.well_formed(),
            soa.well_formed(),
            forall|j: int| 0 <= j < i ==> same_answer(aos.spec_entries(), soa.spec_entries(), #[trigger] queries@[j]),
        decreases queries.len() - i,
    {
        if aos.get(queries[i]) != soa.get(queries[i]) {
            return false;
        }
        i = i + 1;
    }
    true
}

/// Whether the flat and row layouts answer every query alike, by bisection
/// and by scan; the first query that differs is reported.
pub fn verify_parity(flat: &FlatRuleTable, csr: &CsrRuleTable, queries: &[PairKey]) -> (result: Result<(), String>)
    requires
        flat.well_formed(),
        csr.well_formed(),
    ensures
        match result {
            Ok(()) => forall|i: int|
                0 <= i < queries.len() ==> same_answer(flat.spec_entries(), csr.spec_entries(), #[trigger] queries@[i]),
            Err(m) => exists|i: int|
                first_differing_query(flat.spec_entries(), csr.spec_entries(), queries@, i)
                    && m@ == "lookup mismatch for pair key "@ + decimal_chars(
                    queries@[i].spec_raw() as nat,
                ),
        },
{
    let mut i: usize = 0;
    while i < queries.len()
        invariant
            i <= queries.len(),
            flat.well_formed(),
            csr.well_formed(),
            forall|j: int| 0 <= j < i ==> same_answer(flat.spec_entries(), csr.spec_entries(), #[trigger] queries@[j]),
        decreases queries.len() - i,
    {
        let query = queries[i];
        let expected = flat.get(query);
        if csr.get_binary(query) != expected || csr.get_linear(query) != expected {
            let m = message_with_number("lookup mismatch for pair key ", query.raw());
            assert(first_differing_query(flat.spec_entries(), csr.spec_entries(), queries@, i as int));
            return Err(m);
        }
        i = i + 1;
    }
    Ok(())
}

/// Whether the flat layout answers every query as the rule map does; the
/// first query that differs is reported.
pub fn verify_lookup_parity(tree: &BTreeMap<u64, PackedRule>, flat: &FlatRuleTable, queries: &[PairKey]) -> (result: Result<(), String>)
    requires
        flat.well_formed(),
    ensures
        match result {
            Ok(()) => forall|i: int|
                0 <= i < queries.len() ==> map_same_answer(tree@, flat.spec_entries(), #[trigger] queries@[i]),
            Err(m) => exists|i: int|
                first_map_differing_query(tree@, flat.spec_entries(), queries@, i)
                    && m@ == "lookup mismatch for pair key "@ + decimal_chars(
                    queries@[i].spec_raw() as nat,
                ),
        },
{
    let mut i: usize = 0;
    while i < queries.len()
        invariant
            i <= queries.len(),
            flat.well_formed(),
            forall|j: int| 0 <= j < i ==> map_same_answer(tree@, flat.spec_entries(), #[trigger] queries@[j]),
        decreases queries.len() - i,
    {
        let query = queries[i];
        let raw = query.raw();
        let from_tree = match tree.get(&raw) {
            Some(rule) => Some(*rule),
            None => None,
        };
        assert(from_tree == tree@.get(raw));
        if from_tree != flat.get(query) {
            let m = message_with_number("lookup mismatch for pair key ", raw);
            assert(first_map_differing_query(tree@, flat.spec_entries(), queries@, i as int));
            return Err(m);
        }
        i = i + 1;
    }
    Ok(())
}

} // verus!
