//! Historical parallel-merge BPE passes, kept for compatibility probes.
//!
//! A legacy pass scans ids left to right and replaces every adjacent pair
//! that has a merge rule by the rule's output, consuming both ids; passes
//! repeat until one changes nothing. Rule priority plays no part, which is
//! why these semantics differ from canonical rank-priority BPE.

use std::collections::BTreeMap;

use vstd::prelude::*;

use crate::bpe_semantics::TokenId;
use crate::elastic_id::{PairKey, pack_u32_pair};

verus! {

/// Merge rules keyed by `(left, right)` pairs.
pub type PairMerges = Map<(TokenId, TokenId), TokenId>;

/// Whether the pair starting at `ids[0]` merges. With `guard_pad`, pairs
/// that involve the pad id 0 never merge.
pub open spec fn merges_at_front(merges: PairMerges, ids: Seq<TokenId>, guard_pad: bool) -> bool {
    &&& ids.len() >= 2
    &&& (!guard_pad || (ids[0] != 0 && ids[1] != 0))
    &&& merges.contains_key((ids[0], ids[1]))
}

/// One legacy pass over `ids`.
pub open spec fn parallel_pass(merges: PairMerges, ids: Seq<TokenId>, guard_pad: bool) -> Seq<TokenId>
    decreases ids.len(),
{
    if ids.len() == 0 {
        Seq::empty()
    } else if merges_at_front(merges, ids, guard_pad) {
        seq![merges[(ids[0], ids[1])]] + parallel_pass(merges, ids.skip(2), guard_pad)
    } else {
        seq![ids[0]] + parallel_pass(merges, ids.skip(1), guard_pad)
    }
}

/// Number of pairs a pass merges.
pub open spec fn pass_merge_count(merges: PairMerges, ids: Seq<TokenId>, guard_pad: bool) -> nat
    decreases ids.len(),
{
    if ids.len() == 0 {
        0
    } else if merges_at_front(merges, ids, guard_pad) {
        1 + pass_merge_count(merges, ids.skip(2), guard_pad)
    } else {
        pass_merge_count(merges, ids.skip(1), guard_pad)
    }
}

/// Each merged pair shortens the ids by one.
pub proof fn lemma_pass_length(merges: PairMerges, ids: Seq<TokenId>, guard_pad: bool)
    ensures
        parallel_pass(merges, ids, guard_pad).len() + pass_merge_count(merges, ids, guard_pad) == ids.len(),
    decreases ids.len(),
{
    if ids.len() > 0 {
        if merges_at_front(merges, ids, guard_pad) {
            lemma_pass_length(merges, ids.skip(2), guard_pad);
        } else {
            lemma_pass_length(merges, ids.skip(1), guard_pad);
        }
    }
}

/// Passes repeated until one merges nothing.
pub open spec fn parallel_fixpoint(merges: PairMerges, ids: Seq<TokenId>, guard_pad: bool) -> Seq<TokenId>
    decreases ids.len(),
{
    let next = parallel_pass(merges, ids, guard_pad);
    if next.len() < ids.len() {
        parallel_fixpoint(merges, next, guard_pad)
    } else {
        ids
    }
}

/// The fixpoint is stable: another pass merges nothing.
pub proof fn lemma_fixpoint_is_stable(merges: PairMerges, ids: Seq<TokenId>, guard_pad: bool)
    ensures
        pass_merge_count(merges, parallel_fixpoint(merges, ids, guard_pad), guard_pad) == 0,
        parallel_pass(merges, parallel_fixpoint(merges, ids, guard_pad), guard_pad) == parallel_fixpoint(merges, ids, guard_pad),
    decreases ids.len(),
{
    let next = parallel_pass(merges, ids, guard_pad);
    lemma_pass_length(merges, ids, guard_pad);
    if next.len() < ids.len() {
        lemma_fixpoint_is_stable(merges, next, guard_pad);
    } else {
        lemma_pass_without_merges(merges, ids, guard_pad);
    }
}

/// A pass that merges nothing copies its input.
pub proof fn lemma_pass_without_merges(merges: PairMerges, ids: Seq<TokenId>, guard_pad: bool)
    requires
        pass_merge_count(merges, ids, guard_pad) == 0,
    ensures
        parallel_pass(merges, ids, guard_pad) == ids,
    decreases ids.len(),
{
    if ids.len() > 0 {
        lemma_pass_without_merges(merges, ids.skip(1), guard_pad);
        assert(seq![ids[0]] + ids.skip(1) =~= ids);
    }
}

/// One pass into `output`; whether any pair merged.
fn pass_into(
    ids: &[TokenId],
    output: &mut Vec<TokenId>,
    merges: &BTreeMap<(TokenId, TokenId), TokenId>,
    guard_pad: bool,
) -> (changed: bool)
    ensures
        final(output)@ == old(output)@ + parallel_pass(merges@, ids@, guard_pad),
        changed == (pass_merge_count(merges@, ids@, guard_pad) > 0),
{
    let ghost start = output@;
    let mut changed = false;
    let mut index: usize = 0;
    let ghost mut merged: nat = 0;
    assert(ids@.skip(0) =~= ids@);
    while index < ids.len()
        invariant
            index <= ids.len(),
            output@ + parallel_pass(merges@, ids@.skip(index as int), guard_pad) == start + parallel_pass(
                merges@,
                ids@,
                guard_pad,
            ),
            merged + pass_merge_count(merges@, ids@.skip(index as int), guard_pad) == pass_merge_count(
                merges@,
                ids@,
                guard_pad,
            ),
            changed == (merged > 0),
        decreases ids.len() - index,
    {
        let ghost rest = ids@.skip(index as int);
        if index + 1 < ids.len() && (!guard_pad || (ids[index] != 0 && ids[index + 1] != 0)) {
            if let Some(merged_id) = merges.get(&(ids[index], ids[index + 1])) {
                assert(rest[0] == ids@[index as int] && rest[1] == ids@[index + 1]);
                assert(merges_at_front(merges@, rest, guard_pad));
                assert(rest.skip(2) =~= ids@.skip(index + 2));
                output.push(*merged_id);
                proof {
                    merged = merged + 1;
                    assert(output@ + parallel_pass(merges@, ids@.skip(index + 2), guard_pad) =~= start
                        + parallel_pass(merges@, ids@, guard_pad));
                }
                index = index + 2;
                changed = true;
                continue;
            }
        }
        assert(rest[0] == ids@[index as int]);
        assert(index + 1 < ids.len() ==> rest[1] == ids@[index + 1]);
        assert(!merges_at_front(merges@, rest, guard_pad));
        assert(rest.skip(1) =~= ids@.skip(index + 1));
        output.push(ids[index]);
        assert(output@ + parallel_pass(merges@, ids@.skip(index + 1), guard_pad) =~= start
            + parallel_pass(merges@, ids@, guard_pad));
        index = index + 1;
    }
    proof {
        assert(ids@.skip(index as int) =~= Seq::<TokenId>::empty());
        assert(output@ =~= start + parallel_pass(merges@, ids@, guard_pad));
    }
    changed
}

/// One legacy pass that never merges the pad id 0, appended to `output`;
/// whether any pair merged. `ids` is left untouched.
pub fn merge_pass(ids: &[TokenId], output: &mut Vec<TokenId>, merges: &BTreeMap<(TokenId, TokenId), TokenId>) -> (changed: bool)
    ensures
        final(output)@ == old(output)@ + parallel_pass(merges@, ids@, true),
        changed == (pass_merge_count(merges@, ids@, true) > 0),
{
    pass_into(ids, output, merges, true)
}

/// Passes repeated until one merges nothing.
fn fixpoint(ids: Vec<TokenId>, merges: &BTreeMap<(TokenId, TokenId), TokenId>, guard_pad: bool) -> (result: Vec<TokenId>)
    ensures
        result@ == parallel_fixpoint(merges@, ids@, guard_pad),
{
    let mut current = ids;
    loop
        invariant
            parallel_fixpoint(merges@, current@, guard_pad) == parallel_fixpoint(merges@, ids@, guard_pad),
        decreases current.len(),
    {
        let mut next: Vec<TokenId> = Vec::new();
        let changed = pass_into(current.as_slice(), &mut next, merges, guard_pad);
        proof {
            lemma_pass_length(merges@, current@, guard_pad);
            assert(next@ =~= parallel_pass(merges@, current@, guard_pad));
        }
        if !changed {
            return current;
        }
        current = next;
    }
}

/// Historical parallel passes to a fixpoint, with every pair eligible.
pub fn apply_parallel_merges(ids: Vec<TokenId>, merges: &BTreeMap<(TokenId, TokenId), TokenId>) -> (result: Vec<TokenId>)
    ensures
        result@ == parallel_fixpoint(merges@, ids@, false),
{
    fixpoint(ids, merges, false)
}

/// Historical parallel passes to a fixpoint over a wide pair map; pairs
/// involving the pad id 0 never merge.
pub fn apply_wide(ids: Vec<TokenId>, merges: &BTreeMap<(TokenId, TokenId), TokenId>) -> (result: Vec<TokenId>)
    ensures
        result@ == parallel_fixpoint(merges@, ids@, true),
{
    fixpoint(ids, merges, true)
}

/// The pair rules a packed map holds: `(left, right)` of 32-bit ids maps to
/// the output stored under their packed key.
pub open spec fn packed_rules(packed: Map<u64, u32>) -> PairMerges {
    Map::new(
        |p: (TokenId, TokenId)| p.0 <= u32::MAX && p.1 <= u32::MAX && packed.contains_key(
            pack_u32_pair(p.0 as u32, p.1 as u32),
        ),
        |p: (TokenId, TokenId)| packed[pack_u32_pair(p.0 as u32, p.1 as u32)] as TokenId,
    )
}

/// Every id fits in 32 bits.
pub open spec fn all_u32(ids: Seq<TokenId>) -> bool {
    forall|i: int| 0 <= i < ids.len() ==> ids[i] <= u32::MAX
}

proof fn lemma_pass_keeps_u32(merges: PairMerges, ids: Seq<TokenId>, guard_pad: bool)
    requires
        all_u32(ids),
        forall|p: (TokenId, TokenId)| merges.contains_key(p) ==> merges[p] <= u32::MAX,
    ensures
        all_u32(parallel_pass(merges, ids, guard_pad)),
    decreases ids.len(),
{
    if ids.len() > 0 {
        if merges_at_front(merges, ids, guard_pad) {
            lemma_pass_keeps_u32(merges, ids.skip(2), guard_pad);
        } else {
            lemma_pass_keeps_u32(merges, ids.skip(1), guard_pad);
        }
    }
}

/// One guarded pass over a packed map.
fn packed_pass_into(ids: &[TokenId], output: &mut Vec<TokenId>, merges: &BTreeMap<u64, u32>) -> (changed: bool)
    requires
        all_u32(ids@),
    ensures
        final(output)@ == old(output)@ + parallel_pass(packed_rules(merges@), ids@, true),
        changed == (pass_merge_count(packed_rules(merges@), ids@, true) > 0),
{
    let ghost rules = packed_rules(merges@);
    let ghost start = output@;
    let mut changed = false;
    let mut index: usize = 0;
    let ghost mut merged: nat = 0;
    assert(ids@.skip(0) =~= ids@);
    while index < ids.len()
        invariant
            index <= ids.len(),
            all_u32(ids@),
            rules == packed_rules(merges@),
            output@ + parallel_pass(rules, ids@.skip(index as int), true) == start + parallel_pass(rules, ids@, true),
            merged + pass_merge_count(rules, ids@.skip(index as int), true) == pass_merge_count(rules, ids@, true),
            changed == (merged > 0),
        decreases ids.len() - index,
    {
        let ghost rest = ids@.skip(index as int);
        if index + 1 < ids.len() && ids[index] != 0 && ids[index + 1] != 0 {
            let left = ids[index] as u32;
            let right = ids[index + 1] as u32;
            let key = PairKey::new(left, right);
            assert(rest[0] == ids@[index as int] && rest[1] == ids@[index + 1]);
            if let Some(output_id) = merges.get(&key.raw()) {
                assert(rules.contains_key((rest[0], rest[1])));
                assert(merges_at_front(rules, rest, true));
                assert(rest.skip(2) =~= ids@.skip(index + 2));
                output.push(*output_id as TokenId);
                proof {
                    merged = merged + 1;
                    assert(output@ + parallel_pass(rules, ids@.skip(index + 2), true) =~= start
                        + parallel_pass(rules, ids@, true));
                }
                index = index + 2;
                changed = true;
                continue;
            }
            assert(!rules.contains_key((rest[0], rest[1])));
        }
        assert(rest[0] == ids@[index as int]);
        assert(index + 1 < ids.len() ==> rest[1] == ids@[index + 1]);
        assert(!merges_at_front(rules, rest, true));
        assert(rest.skip(1) =~= ids@.skip(index + 1));
        output.push(ids[index]);
        assert(output@ + parallel_pass(rules, ids@.skip(index + 1), true) =~= start + parallel_pass(rules, ids@, true));
        index = index + 1;
    }
    proof {
        assert(ids@.skip(index as int) =~= Seq::<TokenId>::empty());
        assert(output@ =~= start + parallel_pass(rules, ids@, true));
    }
    changed
}

/// Historical parallel passes to a fixpoint over a map keyed by packed
/// 32-bit pairs with 32-bit outputs; pairs involving the pad id 0 never
/// merge. It merges exactly as a wide map holding the same rules does.
pub fn apply_packed(ids: Vec<TokenId>, merges: &BTreeMap<u64, u32>) -> (result: Vec<TokenId>)
    requires
        all_u32(ids@),
    ensures
        result@ == parallel_fixpoint(packed_rules(merges@), ids@, true),
{
    let mut current = ids;
    let ghost rules = packed_rules(merges@);
    loop
        invariant
            rules == packed_rules(merges@),
            all_u32(current@),
            parallel_fixpoint(rules, current@, true) == parallel_fixpoint(rules, ids@, true),
        decreases current.len(),
    {
        let mut next: Vec<TokenId> = Vec::new();
        let changed = packed_pass_into(current.as_slice(), &mut next, merges);
        proof {
            lemma_pass_length(rules, current@, true);
            assert(next@ =~= parallel_pass(rules, current@, true));
            lemma_pass_keeps_u32(rules, current@, true);
        }
        if !changed {
            return current;
        }
        current = next;
    }
}

} // verus!
