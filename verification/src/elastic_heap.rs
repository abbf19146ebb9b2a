//! Large-piece BPE kernel for the ElasticTokenizer.
//!
//! `HeapBpe` keeps the piece as an indexed linked list and schedules merge
//! candidates by priority. Node generations make stale candidates cheap to
//! reject after a local merge, so large and pathological pieces avoid
//! rescanning the piece on each reduction step.
//!
//! The candidate queue is a binary heap kept in a vector and ordered by the
//! `(rank, left, right, left generation, right generation, output)` key: a
//! push sifts the new candidate up, a pop takes the root and sifts the last
//! candidate down, each in a number of steps logarithmic in the queue size.

use std::collections::BTreeMap;

use vstd::prelude::*;

use crate::bpe_semantics::{
    MergeTriple, RuleMap, TokenId, canonical_encode, first_repeated_pair, has_merge_at,
    lemma_first_repeated_prefix, lemma_rule_map_keys, ordered_rule_map,
};
use crate::elastic_id::{
    PackedRule, PairKey, high_half, lemma_pack_order,
    lemma_unpack, low_half, pack_u32_pair,
};
use crate::elastic_linked::{
    CandView, NodeView, WideCandidate, WideNode, all_valid, cand_valid, cands_gen_le, cands_in_range, cands_inv,
    cands_sound, gens_bounded, initial_nodes, initial_order, lemma_after_pushes,
    lemma_initial_list, lemma_no_candidate_done, lemma_pop_step, lemma_recorded_cand,
    lemma_short_or_ruleless, lemma_swap_removed, list_ids, list_wf, merge_wide_nodes,
    merged_nodes, opt_index, pair_covered, popped_from, precedes_cand, pushed, recorded_cand,
    swap_removed, wide_cand_view, wide_candidate_is_valid, wide_cands_view, wide_node_view,
    wide_nodes_view,
};
use crate::elastic_rule_table::{all_fit_compact, fits_compact};
use crate::elastic_tokenizer::{DuplicateMergeRule, WideRuleTable};

verus! {

#[derive(Clone, Copy, Debug, PartialEq, Eq)]
struct HeapRule {
    output: TokenId,
    rank: usize,
}

/// Rules of a compact table keyed by packed `(left, right)` words.
spec fn compact_rules(m: Map<u64, PackedRule>) -> RuleMap {
    Map::new(
        |p: (TokenId, TokenId)|
            p.0 <= u32::MAX && p.1 <= u32::MAX && m.contains_key(
                pack_u32_pair(p.0 as u32, p.1 as u32),
            ),
        |p: (TokenId, TokenId)|
            (
                m[pack_u32_pair(p.0 as u32, p.1 as u32)].spec_rank() as nat,
                m[pack_u32_pair(p.0 as u32, p.1 as u32)].spec_output() as TokenId,
            ),
    )
}

/// Inserting one packed key inserts exactly its pair.
proof fn lemma_compact_insert(m: Map<u64, PackedRule>, left: u32, right: u32, rule: PackedRule)
    ensures
        compact_rules(m.insert(pack_u32_pair(left, right), rule)) == compact_rules(m).insert(
            (left as TokenId, right as TokenId),
            (rule.spec_rank() as nat, rule.spec_output() as TokenId),
        ),
        compact_rules(m).contains_key((left as TokenId, right as TokenId)) <==> m.contains_key(
            pack_u32_pair(left, right),
        ),
{
    let key = pack_u32_pair(left, right);
    let a = compact_rules(m.insert(key, rule));
    let b = compact_rules(m).insert((left as TokenId, right as TokenId), (rule.spec_rank() as nat, rule.spec_output() as TokenId));
    assert forall|p: (TokenId, TokenId)| #[trigger] a.contains_key(p) <==> b.contains_key(p) by {
        if p.0 <= u32::MAX && p.1 <= u32::MAX {
            lemma_pack_order(p.0 as u32, p.1 as u32, left, right);
        }
    }
    assert forall|p: (TokenId, TokenId)| a.contains_key(p) implies #[trigger] a[p] == b[p] by {
        lemma_pack_order(p.0 as u32, p.1 as u32, left, right);
    }
    assert(a =~= b);
}

#[derive(Clone, Debug)]
enum RuleTable {
    Compact(BTreeMap<u64, PackedRule>),
    Wide(WideRuleTable),
}

impl RuleTable {
    spec fn rules(&self) -> RuleMap {
        match self {
            RuleTable::Compact(m) => compact_rules(m@),
            RuleTable::Wide(t) => t.rules(),
        }
    }

    fn from_ordered_merges(merges: &[MergeTriple]) -> (result: Result<Self, DuplicateMergeRule>)
        ensures
            match result {
                Ok(t) => first_repeated_pair(merges@) is None && t.rules() == ordered_rule_map(
                    merges@,
                ) && (t is Compact <==> all_fit_compact(merges@)),
                Err(e) => first_repeated_pair(merges@) == Some((e.left, e.right)),
            },
    {
        let mut compact = true;
        let mut i: usize = 0;
        while i < merges.len()
            invariant
                0 <= i <= merges.len(),
                compact <==> forall|j: int| 0 <= j < i ==> #[trigger] fits_compact(merges@[j], j),
            decreases merges.len() - i,
        {
            let (left, right, output) = merges[i];
            assert(fits_compact(merges@[i as int], i as int) <==> (i <= u32::MAX && left
                <= u32::MAX && right <= u32::MAX && output <= u32::MAX));
            if !(i <= u32::MAX as usize && left <= u32::MAX as usize && right <= u32::MAX as usize
                && output <= u32::MAX as usize) {
                compact = false;
            }
            i = i + 1;
        }
        if !compact {
            let ranked = WideRuleTable::from_ordered_merges(merges)?;
            return Ok(RuleTable::Wide(ranked));
        }
        let mut ranked: BTreeMap<u64, PackedRule> = BTreeMap::new();
        let mut rank: usize = 0;
        assert(merges@.take(0) =~= Seq::<MergeTriple>::empty());
        assert(compact_rules(ranked@) =~= Map::empty());
        while rank < merges.len()
            invariant
                0 <= rank <= merges.len(),
                all_fit_compact(merges@),
                first_repeated_pair(merges@.take(rank as int)) is None,
                compact_rules(ranked@) == ordered_rule_map(merges@.take(rank as int)),
            decreases merges.len() - rank,
        {
            let (left, right, output) = merges[rank];
            assert(fits_compact(merges@[rank as int], rank as int));
            let ghost before = merges@.take(rank as int);
            let ghost after = merges@.take(rank + 1);
            assert(after.drop_last() =~= before);
            assert(after.last() == merges@[rank as int]);
            proof {
                lemma_rule_map_keys(before, (left, right));
            }
            let key = PairKey::new(left as u32, right as u32);
            let rule = PackedRule::new(rank as u32, output as u32);
            proof {
                lemma_compact_insert(ranked@, left as u32, right as u32, rule);
            }
            let previous = ranked.insert(key.raw(), rule);
            if previous.is_some() {
                proof {
                    lemma_first_repeated_prefix(merges@, rank + 1);
                }
                return Err(DuplicateMergeRule { left, right });
            }
            assert(compact_rules(ranked@) =~= ordered_rule_map(after));
            rank = rank + 1;
        }
        assert(merges@.take(merges.len() as int) =~= merges@);
        Ok(RuleTable::Compact(ranked))
    }

    fn is_empty(&self) -> (b: bool)
        ensures
            b <==> self.rules().is_empty(),
    {
        match self {
            RuleTable::Compact(rules) => {
                let b = rules.is_empty();
                proof {
                    if !b {
                        let w = rules@.dom().choose();
                        lemma_unpack(w);
                        let p = (high_half(w) as TokenId, low_half(w) as TokenId);
                        assert(compact_rules(rules@).contains_key(p));
                    }
                }
                b
            },
            RuleTable::Wide(rules) => rules.is_empty(),
        }
    }

    fn is_compact(&self) -> (b: bool)
        ensures
            b <==> self is Compact,
    {
        match self {
            RuleTable::Compact(_) => true,
            RuleTable::Wide(_) => false,
        }
    }

    fn get(&self, left: TokenId, right: TokenId) -> (rule: Option<HeapRule>)
        ensures
            match rule {
                Some(r) => self.rules().contains_key((left, right)) && self.rules()[(left, right)]
                    == (r.rank as nat, r.output),
                None => !self.rules().contains_key((left, right)),
            },
    {
        match self {
            RuleTable::Compact(rules) => {
                let key = match PairKey::try_from_usize(left, right) {
                    Ok(key) => key,
                    Err(_) => return None,
                };
                match rules.get(&key.raw()) {
                    Some(rule) => Some(
                        HeapRule { output: rule.output() as usize, rank: rule.rank() as usize },
                    ),
                    None => None,
                }
            },
            RuleTable::Wide(rules) => match rules.get(left, right) {
                Some((rank, output)) => Some(HeapRule { output, rank }),
                None => None,
            },
        }
    }
}

/// Scheduling order of the queue: `a` is popped before `b`.
spec fn scheduled_before(a: WideCandidate, b: WideCandidate) -> bool {
    if a.rank != b.rank {
        a.rank < b.rank
    } else if a.left != b.left {
        a.left < b.left
    } else if a.right != b.right {
        a.right < b.right
    } else if a.left_generation != b.left_generation {
        a.left_generation < b.left_generation
    } else if a.right_generation != b.right_generation {
        a.right_generation < b.right_generation
    } else {
        a.output < b.output
    }
}

fn is_scheduled_before(a: &WideCandidate, b: &WideCandidate) -> (r: bool)
    ensures
        r == scheduled_before(*a, *b),
{
    if a.rank != b.rank {
        a.rank < b.rank
    } else if a.left != b.left {
        a.left < b.left
    } else if a.right != b.right {
        a.right < b.right
    } else if a.left_generation != b.left_generation {
        a.left_generation < b.left_generation
    } else if a.right_generation != b.right_generation {
        a.right_generation < b.right_generation
    } else {
        a.output < b.output
    }
}

/// `a` is popped no later than `b`.
spec fn sched_le(a: WideCandidate, b: WideCandidate) -> bool {
    !scheduled_before(b, a)
}

/// Parent position of entry `j` of a binary heap.
spec fn heap_parent(j: int) -> int {
    (j - 1) / 2
}

/// Heap order: no entry is popped before its parent.
spec fn heap_ordered(h: Seq<WideCandidate>) -> bool {
    forall|j: int| 0 < j < h.len() ==> sched_le(h[heap_parent(j)], #[trigger] h[j])
}

/// Two queues hold the same candidates.
spec fn same_elems(a: Seq<WideCandidate>, b: Seq<WideCandidate>) -> bool {
    &&& forall|i: int| 0 <= i < a.len() ==> b.contains(#[trigger] a[i])
    &&& forall|j: int| 0 <= j < b.len() ==> a.contains(#[trigger] b[j])
}

/// The scheduling order is total and transitive.
proof fn lemma_sched_order(a: WideCandidate, b: WideCandidate, c: WideCandidate)
    ensures
        sched_le(a, b) || sched_le(b, a),
        scheduled_before(a, b) ==> sched_le(a, b),
        sched_le(a, b) && sched_le(b, c) ==> sched_le(a, c),
        scheduled_before(a, b) && sched_le(b, c) ==> scheduled_before(a, c),
{
}

/// The root of a heap is popped no later than any entry.
proof fn lemma_heap_root_first(h: Seq<WideCandidate>, i: int)
    requires
        heap_ordered(h),
        0 <= i < h.len(),
    ensures
        sched_le(h[0], h[i]),
    decreases i,
{
    if i > 0 {
        let p = heap_parent(i);
        lemma_heap_root_first(h, p);
        lemma_sched_order(h[0], h[p], h[i]);
    } else {
        lemma_sched_order(h[0], h[0], h[0]);
    }
}

/// Swapping two entries keeps the candidates.
proof fn lemma_swap_same(h: Seq<WideCandidate>, i: int, j: int)
    requires
        0 <= i < h.len(),
        0 <= j < h.len(),
    ensures
        same_elems(h, h.update(i, h[j]).update(j, h[i])),
{
    let g = h.update(i, h[j]).update(j, h[i]);
    assert forall|k: int| 0 <= k < h.len() implies g.contains(#[trigger] h[k]) by {
        if k == i {
            assert(g[j] == h[k]);
        } else if k == j {
            assert(g[i] == h[k]);
        } else {
            assert(g[k] == h[k]);
        }
    }
    assert forall|k: int| 0 <= k < g.len() implies h.contains(#[trigger] g[k]) by {
        if k == j {
            assert(h[i] == g[k]);
        } else if k == i {
            assert(h[j] == g[k]);
        } else {
            assert(h[k] == g[k]);
        }
    }
}

/// `same_elems` chains.
proof fn lemma_same_trans(a: Seq<WideCandidate>, b: Seq<WideCandidate>, c: Seq<WideCandidate>)
    requires
        same_elems(a, b),
        same_elems(b, c),
    ensures
        same_elems(a, c),
{
    assert forall|i: int| 0 <= i < a.len() implies c.contains(#[trigger] a[i]) by {
        let k = choose|k: int| 0 <= k < b.len() && b[k] == a[i];
        assert(c.contains(b[k]));
    }
    assert forall|j: int| 0 <= j < c.len() implies a.contains(#[trigger] c[j]) by {
        let k = choose|k: int| 0 <= k < b.len() && b[k] == c[j];
        assert(a.contains(b[k]));
    }
}

/// Moves the last entry up to its place; the other entries are in heap order.
fn sift_up(heap: &mut Vec<WideCandidate>)
    requires
        old(heap).len() > 0,
        heap_ordered(old(heap)@.drop_last()),
    ensures
        heap_ordered(final(heap)@),
        same_elems(old(heap)@, final(heap)@),
        final(heap).len() == old(heap).len(),
{
    let ghost start = heap@;
    let mut i: usize = heap.len() - 1;
    proof {
        assert forall|j: int| 0 < j < heap.len() && j != i implies sched_le(
            heap@[heap_parent(j)],
            #[trigger] heap@[j],
        ) by {
            assert(heap@.drop_last()[j] == heap@[j]);
            assert(heap@.drop_last()[heap_parent(j)] == heap@[heap_parent(j)]);
        }
        assert forall|k: int| 0 <= k < start.len() implies heap@.contains(#[trigger] start[k]) by {
            assert(heap@[k] == start[k]);
        }
        assert forall|k: int| 0 <= k < heap.len() implies start.contains(#[trigger] heap@[k]) by {
            assert(heap@[k] == start[k]);
        }
    }
    while i > 0
        invariant
            i < heap.len(),
            heap.len() == start.len(),
            start == old(heap)@,
            same_elems(start, heap@),
            forall|j: int| 0 < j < heap.len() && j != i ==> sched_le(heap@[heap_parent(j)], #[trigger] heap@[j]),
            i > 0 ==> forall|j: int|
                0 < j < heap.len() && heap_parent(j) == i ==> sched_le(
                    heap@[heap_parent(i as int)],
                    #[trigger] heap@[j],
                ),
        decreases i,
    {
        let p = (i - 1) / 2;
        if !is_scheduled_before(&heap[i], &heap[p]) {
            proof {
                assert(sched_le(heap@[p as int], heap@[i as int]));
            }
            return;
        }
        let ghost h = heap@;
        let child = heap[i];
        let parent = heap[p];
        heap.set(p, child);
        heap.set(i, parent);
        proof {
            assert(heap@ == h.update(p as int, h[i as int]).update(i as int, h[p as int]));
            lemma_swap_same(h, p as int, i as int);
            lemma_same_trans(start, h, heap@);
            let g = heap@;
            assert forall|j: int| 0 < j < g.len() && j != p implies sched_le(g[heap_parent(j)], #[trigger] g[j]) by {
                let q = heap_parent(j);
                if j == i {
                    lemma_sched_order(h[i as int], h[p as int], h[p as int]);
                } else if q == p {
                    assert(g[j] == h[j]);
                    lemma_sched_order(h[i as int], h[p as int], h[j]);
                } else if q == i {
                    assert(g[j] == h[j]);
                } else {
                    assert(g[j] == h[j]);
                    if j == p {
                    } else {
                        assert(g[q] == h[q]);
                    }
                }
            }
            if p > 0 {
                assert forall|j: int| 0 < j < g.len() && heap_parent(j) == p implies sched_le(
                    g[heap_parent(p as int)],
                    #[trigger] g[j],
                ) by {
                    let pp = heap_parent(p as int);
                    assert(g[pp] == h[pp]);
                    assert(sched_le(h[pp], h[p as int]));
                    if j == i {
                        lemma_sched_order(h[pp], h[p as int], h[p as int]);
                    } else {
                        assert(g[j] == h[j]);
                        lemma_sched_order(h[pp], h[p as int], h[j]);
                    }
                }
            }
        }
        i = p;
    }
}

/// Moves the root entry down to its place; the other entries are in heap
/// order.
fn sift_down(heap: &mut Vec<WideCandidate>)
    requires
        forall|j: int| 0 < j < old(heap).len() && heap_parent(j) != 0 ==> sched_le(
            old(heap)@[heap_parent(j)],
            #[trigger] old(heap)@[j],
        ),
    ensures
        heap_ordered(final(heap)@),
        same_elems(old(heap)@, final(heap)@),
        final(heap).len() == old(heap).len(),
{
    let ghost start = heap@;
    let n = heap.len();
    let mut i: usize = 0;
    proof {
        assert forall|k: int| 0 <= k < start.len() implies heap@.contains(#[trigger] start[k]) by {
            assert(heap@[k] == start[k]);
        }
    }
    loop
        invariant
            n == heap.len(),
            heap.len() == start.len(),
            start == old(heap)@,
            i < n || n == 0,
            same_elems(start, heap@),
            forall|j: int| 0 < j < n && heap_parent(j) != i ==> sched_le(heap@[heap_parent(j)], #[trigger] heap@[j]),
            i > 0 ==> forall|j: int|
                0 < j < n && heap_parent(j) == i ==> sched_le(heap@[heap_parent(i as int)], #[trigger] heap@[j]),
        decreases n - i,
    {
        if n == 0 || i >= (n - 1) / 2 + (n - 1) % 2 {
            proof {
                assert forall|j: int| 0 < j < heap.len() implies sched_le(heap@[heap_parent(j)], #[trigger] heap@[j]) by {
                    assert(heap_parent(j) != i);
                }
            }
            return;
        }
        let l = 2 * i + 1;
        let r = 2 * i + 2;
        let mut c = l;
        if r < n && is_scheduled_before(&heap[r], &heap[l]) {
            c = r;
        }
        proof {
            if r < n {
                lemma_sched_order(heap@[l as int], heap@[r as int], heap@[l as int]);
                assert(sched_le(heap@[c as int], heap@[l as int]));
                assert(sched_le(heap@[c as int], heap@[r as int]));
            }
        }
        if !is_scheduled_before(&heap[c], &heap[i]) {
            proof {
                assert forall|j: int| 0 < j < heap.len() implies sched_le(heap@[heap_parent(j)], #[trigger] heap@[j]) by {
                    if heap_parent(j) == i {
                        lemma_sched_order(heap@[i as int], heap@[c as int], heap@[j]);
                    }
                }
            }
            return;
        }
        let ghost h = heap@;
        let top = heap[i];
        let low = heap[c];
        heap.set(i, low);
        heap.set(c, top);
        proof {
            assert(heap@ == h.update(i as int, h[c as int]).update(c as int, h[i as int]));
            lemma_swap_same(h, i as int, c as int);
            lemma_same_trans(start, h, heap@);
            let g = heap@;
            assert forall|j: int| 0 < j < n && heap_parent(j) != c implies sched_le(g[heap_parent(j)], #[trigger] g[j]) by {
                let q = heap_parent(j);
                if j == c {
                    lemma_sched_order(h[c as int], h[i as int], h[i as int]);
                } else if q == i {
                    assert(g[j] == h[j]);
                } else if j == i {
                    assert(g[q] == h[q]);
                } else {
                    assert(g[j] == h[j]);
                    assert(g[q] == h[q]);
                }
            }
            assert forall|j: int| 0 < j < n && heap_parent(j) == c implies sched_le(g[heap_parent(c as int)], #[trigger] g[j]) by {
                assert(g[j] == h[j]);
                assert(heap_parent(c as int) == i);
            }
        }
        i = c;
    }
}

/// Adds a candidate to the queue.
fn heap_push(heap: &mut Vec<WideCandidate>, c: WideCandidate)
    requires
        heap_ordered(old(heap)@),
    ensures
        heap_ordered(final(heap)@),
        same_elems(old(heap)@.push(c), final(heap)@),
{
    heap.push(c);
    proof {
        assert(heap@.drop_last() =~= old(heap)@);
    }
    sift_up(heap);
}

/// Takes the candidate the queue pops next: one that no other candidate
/// precedes.
fn heap_pop(heap: &mut Vec<WideCandidate>) -> (top: WideCandidate)
    requires
        old(heap).len() > 0,
        heap_ordered(old(heap)@),
    ensures
        heap_ordered(final(heap)@),
        forall|i: int| 0 <= i < old(heap).len() ==> sched_le(top, #[trigger] old(heap)@[i]),
        old(heap)@[0] == top,
        same_elems(swap_removed_raw(old(heap)@), final(heap)@),
        final(heap).len() == old(heap).len() - 1,
{
    proof {
        assert forall|i: int| 0 <= i < old(heap).len() implies sched_le(old(heap)@[0], #[trigger] old(heap)@[i]) by {
            lemma_heap_root_first(old(heap)@, i);
        }
    }
    let ghost h = heap@;
    let top = heap.swap_remove(0);
    proof {
        assert(heap@ == swap_removed_raw(h));
        assert forall|j: int| 0 < j < heap.len() && heap_parent(j) != 0 implies sched_le(
            heap@[heap_parent(j)],
            #[trigger] heap@[j],
        ) by {
            assert(heap@[j] == h[j]);
            assert(heap@[heap_parent(j)] == h[heap_parent(j)]);
        }
    }
    sift_down(heap);
    top
}

/// The queue after `swap_remove(0)`.
spec fn swap_removed_raw(h: Seq<WideCandidate>) -> Seq<WideCandidate> {
    h.update(0, h.last()).drop_last()
}

/// Two candidate lists hold the same candidates.
spec fn same_cands(a: Seq<CandView>, b: Seq<CandView>) -> bool {
    &&& forall|i: int| 0 <= i < a.len() ==> b.contains(#[trigger] a[i])
    &&& forall|j: int| 0 <= j < b.len() ==> a.contains(#[trigger] b[j])
}

/// The candidate list after recording the pair `left`, `right`.
spec fn pushed_seq(rules: RuleMap, nodes: Seq<NodeView>, left: int, right: int, before: Seq<CandView>) -> Seq<
    CandView,
> {
    if rules.contains_key((nodes[left].token, nodes[right].token)) {
        before.push(recorded_cand(rules, nodes, left, right))
    } else {
        before
    }
}

proof fn lemma_same_cands_refl(a: Seq<CandView>)
    ensures
        same_cands(a, a),
{
    assert forall|i: int| 0 <= i < a.len() implies a.contains(#[trigger] a[i]) by {}
}

proof fn lemma_same_cands_trans(a: Seq<CandView>, b: Seq<CandView>, c: Seq<CandView>)
    requires
        same_cands(a, b),
        same_cands(b, c),
    ensures
        same_cands(a, c),
{
    assert forall|i: int| 0 <= i < a.len() implies c.contains(#[trigger] a[i]) by {
        let k = choose|k: int| 0 <= k < b.len() && b[k] == a[i];
        assert(c.contains(b[k]));
    }
    assert forall|j: int| 0 <= j < c.len() implies a.contains(#[trigger] c[j]) by {
        let k = choose|k: int| 0 <= k < b.len() && b[k] == c[j];
        assert(a.contains(b[k]));
    }
}

/// Queues with the same candidates have the same candidate views.
proof fn lemma_same_views(a: Seq<WideCandidate>, b: Seq<WideCandidate>)
    requires
        same_elems(a, b),
    ensures
        same_cands(wide_cands_view(a), wide_cands_view(b)),
{
    let va = wide_cands_view(a);
    let vb = wide_cands_view(b);
    assert forall|i: int| 0 <= i < va.len() implies vb.contains(#[trigger] va[i]) by {
        let k = choose|k: int| 0 <= k < b.len() && b[k] == a[i];
        assert(vb[k] == va[i]);
    }
    assert forall|j: int| 0 <= j < vb.len() implies va.contains(#[trigger] vb[j]) by {
        let k = choose|k: int| 0 <= k < a.len() && a[k] == b[j];
        assert(va[k] == vb[j]);
    }
}

/// Recording a pair on lists with the same candidates gives lists with the
/// same candidates.
proof fn lemma_pushed_same(
    rules: RuleMap,
    nodes: Seq<NodeView>,
    left: int,
    right: int,
    a: Seq<CandView>,
    b: Seq<CandView>,
)
    requires
        same_cands(a, b),
    ensures
        same_cands(pushed_seq(rules, nodes, left, right, a), pushed_seq(rules, nodes, left, right, b)),
{
    if rules.contains_key((nodes[left].token, nodes[right].token)) {
        let x = recorded_cand(rules, nodes, left, right);
        let pa = a.push(x);
        let pb = b.push(x);
        assert forall|i: int| 0 <= i < pa.len() implies pb.contains(#[trigger] pa[i]) by {
            if i < a.len() {
                assert(pa[i] == a[i]);
                let k = choose|k: int| 0 <= k < b.len() && b[k] == a[i];
                assert(pb[k] == b[k]);
            } else {
                assert(pb[b.len() as int] == x);
            }
        }
        assert forall|j: int| 0 <= j < pb.len() implies pa.contains(#[trigger] pb[j]) by {
            if j < b.len() {
                assert(pb[j] == b[j]);
                let k = choose|k: int| 0 <= k < a.len() && a[k] == b[j];
                assert(pa[k] == a[k]);
            } else {
                assert(pa[a.len() as int] == x);
            }
        }
    }
}

/// The bookkeeping facts depend only on which candidates a list holds.
proof fn lemma_same_cands_keep(
    rules: RuleMap,
    nodes: Seq<NodeView>,
    order: Seq<int>,
    n: int,
    a: Seq<CandView>,
    b: Seq<CandView>,
)
    requires
        same_cands(a, b),
    ensures
        cands_in_range(n, a) ==> cands_in_range(n, b),
        all_valid(nodes, a) ==> all_valid(nodes, b),
        cands_sound(rules, nodes, a) ==> cands_sound(rules, nodes, b),
        cands_gen_le(nodes, a) ==> cands_gen_le(nodes, b),
        forall|k: int| pair_covered(nodes, order, a, k) ==> #[trigger] pair_covered(nodes, order, b, k),
        cands_inv(rules, nodes, order, a) ==> cands_inv(rules, nodes, order, b),
{
    assert forall|k: int| pair_covered(nodes, order, a, k) implies #[trigger] pair_covered(nodes, order, b, k) by {
        let i = choose|i: int| 0 <= i < a.len() && (#[trigger] a[i]).left == order[k] && cand_valid(nodes, a[i]);
        let j = choose|j: int| 0 <= j < b.len() && b[j] == a[i];
        assert(b[j].left == order[k]);
    }
    if cands_in_range(n, a) {
        assert forall|j: int| 0 <= j < b.len() implies 0 <= (#[trigger] b[j]).left < n && 0 <= b[j].right < n by {
            let i = choose|i: int| 0 <= i < a.len() && a[i] == b[j];
        }
    }
    if all_valid(nodes, a) {
        assert forall|j: int| 0 <= j < b.len() implies cand_valid(nodes, #[trigger] b[j]) by {
            let i = choose|i: int| 0 <= i < a.len() && a[i] == b[j];
        }
    }
    if cands_sound(rules, nodes, a) {
        assert forall|j: int| 0 <= j < b.len() implies crate::elastic_linked::cand_sound(rules, nodes, #[trigger] b[j]) by {
            let i = choose|i: int| 0 <= i < a.len() && a[i] == b[j];
        }
    }
    if cands_gen_le(nodes, a) {
        assert forall|j: int| 0 <= j < b.len() implies (#[trigger] b[j]).left_gen <= nodes[b[j].left].generation
            && b[j].right_gen <= nodes[b[j].right].generation by {
            let i = choose|i: int| 0 <= i < a.len() && a[i] == b[j];
        }
    }
}

/// After the merge, the queue holds the candidates of the two new
/// adjacencies besides the earlier ones, so the bookkeeping is complete again.
proof fn lemma_after_heap_pushes(
    rules: RuleMap,
    merged: Seq<NodeView>,
    order: Seq<int>,
    base: Seq<CandView>,
    mid: Seq<CandView>,
    actual: Seq<CandView>,
    k: int,
    left: int,
    prev: Option<usize>,
    next: Option<usize>,
    n: int,
    bounded: bool,
)
    requires
        merged.len() == n,
        0 <= left < n,
        left == order[k],
        cands_in_range(n, base),
        prev matches Some(p) ==> p < n,
        next matches Some(x) ==> x < n,
        match prev {
            Some(p) => same_cands(mid, pushed_seq(rules, merged, p as int, left, base)),
            None => mid == base,
        },
        match next {
            Some(x) => same_cands(actual, pushed_seq(rules, merged, left, x as int, mid)),
            None => actual == mid,
        },
        bounded ==> {
            &&& list_wf(merged, order)
            &&& 0 <= k < order.len()
            &&& merged.len() <= u32::MAX
            &&& cands_sound(rules, merged, base)
            &&& cands_gen_le(merged, base)
            &&& gens_bounded(merged, merged.len() - order.len())
            &&& forall|m: int|
                m != k - 1 && m != k && #[trigger] has_merge_at(rules, list_ids(merged, order), m)
                    ==> pair_covered(merged, order, base, m)
            &&& opt_index(prev) == (if k > 0 {
                Some(order[k - 1])
            } else {
                None::<int>
            })
            &&& opt_index(next) == (if k + 1 < order.len() {
                Some(order[k + 1])
            } else {
                None::<int>
            })
        },
    ensures
        cands_in_range(n, actual),
        bounded ==> cands_inv(rules, merged, order, actual),
{
    let lmid = match prev {
        Some(p) => pushed_seq(rules, merged, p as int, left, base),
        None => base,
    };
    let lafter = match next {
        Some(x) => pushed_seq(rules, merged, left, x as int, lmid),
        None => lmid,
    };
    match prev {
        Some(p) => {},
        None => {
            lemma_same_cands_refl(base);
        },
    }
    match next {
        Some(x) => {
            lemma_pushed_same(rules, merged, left, x as int, mid, lmid);
            lemma_same_cands_trans(actual, pushed_seq(rules, merged, left, x as int, mid), lafter);
        },
        None => {
            lemma_same_cands_trans(actual, mid, lafter);
        },
    }
    assert forall|i: int| 0 <= i < lmid.len() && i < base.len() implies lmid[i] == base[i] by {}
    assert forall|i: int| 0 <= i < lafter.len() && i < lmid.len() implies lafter[i] == lmid[i] by {}
    assert(cands_in_range(n, lafter)) by {
        assert forall|i: int| 0 <= i < lafter.len() implies 0 <= (#[trigger] lafter[i]).left < n && 0
            <= lafter[i].right < n by {
            if i < base.len() {
                assert(lafter[i] == base[i]);
            }
        }
    }
    lemma_same_cands_keep(rules, merged, order, n, lafter, actual);
    if bounded {
        lemma_after_pushes(rules, merged, order, base, lmid, lafter, k, prev, next);
    }
}

/// Rank-priority BPE kernel with priority-scheduled local candidates.
#[derive(Clone, Debug)]
pub struct HeapBpe {
    merges: RuleTable,
}

impl HeapBpe {
    /// The kernel's abstract rules.
    pub closed spec fn rules(&self) -> RuleMap {
        self.merges.rules()
    }

    /// The kernel stores its rules as packed `u32` words.
    pub closed spec fn spec_is_compact(&self) -> bool {
        self.merges is Compact
    }

    /// Builds the kernel; the first rule whose pair already occurred is
    /// reported.
    pub fn from_ordered_merges(merges: &[MergeTriple]) -> (result: Result<Self, DuplicateMergeRule>)
        ensures
            match result {
                Ok(t) => first_repeated_pair(merges@) is None && t.rules() == ordered_rule_map(
                    merges@,
                ) && (t.spec_is_compact() <==> all_fit_compact(merges@)),
                Err(e) => first_repeated_pair(merges@) == Some((e.left, e.right)),
            },
    {
        Ok(HeapBpe { merges: RuleTable::from_ordered_merges(merges)? })
    }

    /// Whether normal rule tables use the packed word storage.
    pub fn is_compact(&self) -> (b: bool)
        ensures
            b <==> self.spec_is_compact(),
    {
        self.merges.is_compact()
    }

    fn push_candidate(
        &self,
        nodes: &Vec<WideNode>,
        left: usize,
        right: usize,
        heap: &mut Vec<WideCandidate>,
    )
        requires
            left < nodes.len(),
            right < nodes.len(),
            heap_ordered(old(heap)@),
        ensures
            heap_ordered(final(heap)@),
            same_cands(
                wide_cands_view(final(heap)@),
                pushed_seq(
                    self.rules(),
                    wide_nodes_view(nodes@),
                    left as int,
                    right as int,
                    wide_cands_view(old(heap)@),
                ),
            ),
    {
        let ghost nv = wide_nodes_view(nodes@);
        assert(nv[left as int].token == nodes@[left as int].token);
        assert(nv[right as int].token == nodes@[right as int].token);
        match self.merges.get(nodes[left].token, nodes[right].token) {
            Some(rule) => {
                let c = WideCandidate {
                    rank: rule.rank,
                    left,
                    right,
                    left_generation: nodes[left].generation,
                    right_generation: nodes[right].generation,
                    output: rule.output,
                };
                let ghost before = heap@;
                heap_push(heap, c);
                proof {
                    lemma_same_views(before.push(c), heap@);
                    assert(wide_cands_view(before.push(c)) =~= wide_cands_view(before).push(
                        recorded_cand(self.rules(), nv, left as int, right as int),
                    ));
                }
            },
            None => {
                proof {
                    lemma_same_cands_refl(wide_cands_view(heap@));
                }
            },
        }
    }

    /// Pops candidates in scheduling order until a valid one appears.
    fn pop_valid_candidate(&self, nodes: &Vec<WideNode>, heap: &mut Vec<WideCandidate>) -> (popped:
        Option<WideCandidate>)
        requires
            heap_ordered(old(heap)@),
        ensures
            heap_ordered(final(heap)@),
            match popped {
                None => forall|t: int|
                    0 <= t < old(heap).len() ==> !cand_valid(
                        wide_nodes_view(nodes@),
                        #[trigger] wide_cands_view(old(heap)@)[t],
                    ),
                Some(c) => popped_from(
                    wide_nodes_view(nodes@),
                    wide_cands_view(old(heap)@),
                    wide_cand_view(c),
                    wide_cands_view(final(heap)@),
                ),
            },
    {
        let ghost nv = wide_nodes_view(nodes@);
        let ghost start = wide_cands_view(heap@);
        loop
            invariant
                nv == wide_nodes_view(nodes@),
                start == wide_cands_view(old(heap)@),
                heap_ordered(heap@),
                forall|i: int| 0 <= i < heap.len() ==> start.contains(#[trigger] wide_cands_view(heap@)[i]),
                forall|t: int|
                    0 <= t < start.len() && cand_valid(nv, #[trigger] start[t]) ==> wide_cands_view(
                        heap@,
                    ).contains(start[t]),
            decreases heap.len(),
        {
            if heap.len() == 0 {
                proof {
                    assert forall|t: int| 0 <= t < start.len() implies !cand_valid(
                        nv,
                        #[trigger] start[t],
                    ) by {
                        if cand_valid(nv, start[t]) {
                            let i = choose|i: int|
                                0 <= i < wide_cands_view(heap@).len() && wide_cands_view(heap@)[i]
                                    == start[t];
                        }
                    }
                }
                return None;
            }
            let ghost hw = heap@;
            let ghost cur = wide_cands_view(heap@);
            let candidate = heap_pop(heap);
            proof {
                lemma_swap_removed(cur, 0);
                assert(wide_cands_view(swap_removed_raw(hw)) =~= swap_removed(cur, 0));
                lemma_same_views(swap_removed_raw(hw), heap@);
                let removed = swap_removed(cur, 0);
                let rest = wide_cands_view(heap@);
                assert forall|i: int| 0 <= i < heap.len() implies start.contains(
                    #[trigger] wide_cands_view(heap@)[i],
                ) by {
                    let j = choose|j: int| 0 <= j < removed.len() && removed[j] == rest[i];
                    let k = choose|k: int| 0 <= k < cur.len() && cur[k] == removed[j];
                    assert(start.contains(cur[k]));
                }
                assert forall|t: int|
                    0 <= t < start.len() && cand_valid(nv, #[trigger] start[t])
                        && start[t] != cur[0] implies rest.contains(start[t]) by {
                    let i = choose|i: int| 0 <= i < cur.len() && cur[i] == start[t];
                    assert(i != 0);
                    assert(removed.contains(cur[i]));
                    let j = choose|j: int| 0 <= j < removed.len() && removed[j] == cur[i];
                    assert(rest.contains(removed[j]));
                }
            }
            if wide_candidate_is_valid(nodes, candidate) {
                proof {
                    let c = cur[0];
                    assert(wide_cand_view(candidate) == c);
                    assert forall|t: int|
                        0 <= t < start.len() && cand_valid(nv, #[trigger] start[t]) implies precedes_cand(
                        c,
                        start[t],
                    ) by {
                        let i = choose|i: int| 0 <= i < cur.len() && cur[i] == start[t];
                        assert(sched_le(candidate, hw[i]));
                        assert(cur[i] == wide_cand_view(hw[i]));
                    }
                }
                return Some(candidate);
            }
        }
    }

    /// Encodes one complete pre-tokenized piece without artificial chunking.
    /// Generation counters are `u32`, so the result is stated for pieces of at
    /// most `u32::MAX` ids.
    #[verifier::rlimit(100)]
    pub fn encode_ids(&self, input: &[TokenId]) -> (ids: Vec<TokenId>)
        ensures
            input.len() <= u32::MAX ==> ids@ == canonical_encode(self.rules(), input@),
    {
        if input.len() < 2 || self.merges.is_empty() {
            proof {
                lemma_short_or_ruleless(self.rules(), input@);
            }
            return vstd::slice::slice_to_vec(input);
        }
        let n = input.len();
        let ghost rules = self.rules();
        let ghost bounded = n <= u32::MAX;
        let mut nodes: Vec<WideNode> = Vec::with_capacity(n);
        let mut index: usize = 0;
        while index < n
            invariant
                n == input.len(),
                index <= n,
                nodes.len() == index,
                forall|i: int|
                    0 <= i < index ==> wide_node_view(#[trigger] nodes@[i]) == initial_nodes(
                        input@,
                    )[i],
            decreases n - index,
        {
            let prev = if index == 0 {
                None
            } else {
                Some(index - 1)
            };
            let next = if index + 1 < n {
                Some(index + 1)
            } else {
                None
            };
            nodes.push(WideNode { token: input[index], prev, next, generation: 0, active: true });
            index = index + 1;
        }
        let ghost mut order = initial_order(n as int);
        proof {
            assert(wide_nodes_view(nodes@) =~= initial_nodes(input@));
            lemma_initial_list(input@);
        }
        let mut heap: Vec<WideCandidate> = Vec::with_capacity(n - 1);
        let mut left: usize = 0;
        while left < n - 1
            invariant
                n == input.len(),
                n >= 2,
                rules == self.rules(),
                nodes.len() == n,
                left <= n - 1,
                list_wf(wide_nodes_view(nodes@), order),
                order == initial_order(n as int),
                list_ids(wide_nodes_view(nodes@), order) == input@,
                gens_bounded(wide_nodes_view(nodes@), 0),
                heap_ordered(heap@),
                all_valid(wide_nodes_view(nodes@), wide_cands_view(heap@)),
                cands_sound(rules, wide_nodes_view(nodes@), wide_cands_view(heap@)),
                cands_gen_le(wide_nodes_view(nodes@), wide_cands_view(heap@)),
                forall|m: int|
                    0 <= m < left && #[trigger] has_merge_at(rules, input@, m) ==> pair_covered(
                        wide_nodes_view(nodes@),
                        order,
                        wide_cands_view(heap@),
                        m,
                    ),
            decreases n - 1 - left,
        {
            let ghost nv = wide_nodes_view(nodes@);
            let ghost before = wide_cands_view(heap@);
            self.push_candidate(&nodes, left, left + 1, &mut heap);
            proof {
                let actual = wide_cands_view(heap@);
                let after = pushed_seq(rules, nv, left as int, left + 1, before);
                assert(order[left as int] == left && order[left + 1] == left + 1);
                if rules.contains_key((nv[left as int].token, nv[left + 1].token)) {
                    lemma_recorded_cand(rules, nv, order, left as int);
                    assert(after[before.len() as int] == recorded_cand(
                        rules,
                        nv,
                        left as int,
                        left + 1,
                    ));
                }
                assert forall|m: int|
                    0 <= m < left + 1 && #[trigger] has_merge_at(rules, input@, m) implies pair_covered(
                    nv,
                    order,
                    after,
                    m,
                ) by {
                    if m < left {
                        let i = choose|i: int|
                            0 <= i < before.len() && (#[trigger] before[i]).left == order[m]
                                && cand_valid(nv, before[i]);
                        assert(after[i] == before[i]);
                    } else {
                        lemma_recorded_cand(rules, nv, order, m);
                        assert(after[before.len() as int] == recorded_cand(
                            rules,
                            nv,
                            left as int,
                            left + 1,
                        ));
                    }
                }
                assert(all_valid(nv, after));
                assert(cands_sound(rules, nv, after));
                assert(cands_gen_le(nv, after));
                lemma_same_cands_keep(rules, nv, order, n as int, after, actual);
            }
            left = left + 1;
        }
        proof {
            let nv = wide_nodes_view(nodes@);
            assert forall|m: int| #[trigger] has_merge_at(rules, list_ids(nv, order), m) implies pair_covered(
                nv,
                order,
                wide_cands_view(heap@),
                m,
            ) by {
                assert(has_merge_at(rules, input@, m));
            }
        }
        loop
            invariant_except_break
                cands_in_range(n as int, wide_cands_view(heap@)),
                bounded ==> cands_inv(rules, wide_nodes_view(nodes@), order, wide_cands_view(heap@)),
                bounded ==> canonical_encode(rules, list_ids(wide_nodes_view(nodes@), order))
                    == canonical_encode(rules, input@),
            invariant
                n == input.len(),
                rules == self.rules(),
                heap_ordered(heap@),
                bounded == (n <= u32::MAX),
                nodes.len() == n,
                list_wf(wide_nodes_view(nodes@), order),
            ensures
                n == input.len(),
                nodes.len() == n,
                list_wf(wide_nodes_view(nodes@), order),
                bounded ==> list_ids(wide_nodes_view(nodes@), order) == canonical_encode(
                    rules,
                    input@,
                ),
            decreases order.len(),
        {
            let ghost nv = wide_nodes_view(nodes@);
            let ghost hv = wide_cands_view(heap@);
            let candidate = match self.pop_valid_candidate(&nodes, &mut heap) {
                Some(c) => c,
                None => {
                    proof {
                        if bounded {
                            lemma_no_candidate_done(rules, nv, order, hv);
                        }
                    }
                    break ;
                },
            };
            let ghost k = lemma_pop_step(
                rules,
                nv,
                order,
                hv,
                wide_cand_view(candidate),
                wide_cands_view(heap@),
                bounded,
            );
            proof {
                assert(nv[order[k]].active && nv[order[k + 1]].active);
                if k + 2 < order.len() {
                    assert(nv[order[k + 2]].active);
                }
            }
            let left = candidate.left;
            let (prev, next) = merge_wide_nodes(&mut nodes, left, candidate.right, candidate.output);
            let ghost new_order = order.remove(k + 1);
            let ghost merged = merged_nodes(nv, left as int, candidate.right as int, candidate.output);
            proof {
                assert(opt_index(prev) == (if k > 0 {
                    Some(new_order[k - 1])
                } else {
                    None::<int>
                }));
                assert(opt_index(next) == (if k + 1 < new_order.len() {
                    Some(new_order[k + 1])
                } else {
                    None::<int>
                }));
                order = new_order;
            }
            let ghost base = wide_cands_view(heap@);
            let ghost merged_view = wide_nodes_view(nodes@);
            if let Some(prev_index) = prev {
                self.push_candidate(&nodes, prev_index, left, &mut heap);
            }
            let ghost mid = wide_cands_view(heap@);
            if let Some(next_index) = next {
                self.push_candidate(&nodes, left, next_index, &mut heap);
            }
            proof {
                assert(merged_view == merged);
                lemma_after_heap_pushes(
                    rules,
                    merged,
                    order,
                    base,
                    mid,
                    wide_cands_view(heap@),
                    k,
                    left as int,
                    prev,
                    next,
                    n as int,
                    bounded,
                );
            }
        }
        let mut output: Vec<TokenId> = Vec::with_capacity(n);
        let mut current: Option<usize> = Some(0);
        let ghost mut pos: int = 0;
        while current.is_some()
            invariant
                nodes.len() == n,
                list_wf(wide_nodes_view(nodes@), order),
                0 <= pos <= order.len(),
                current == (if pos < order.len() {
                    Some(order[pos] as usize)
                } else {
                    None::<usize>
                }),
                output@ == list_ids(wide_nodes_view(nodes@), order).take(pos),
            decreases order.len() - pos,
        {
            let index = current.unwrap();
            let ghost nv = wide_nodes_view(nodes@);
            assert(nv[order[pos]].active);
            if nodes[index].active {
                output.push(nodes[index].token);
            }
            current = nodes[index].next;
            proof {
                assert(output@ =~= list_ids(nv, order).take(pos + 1));
                pos = pos + 1;
            }
        }
        proof {
            assert(output@ =~= list_ids(wide_nodes_view(nodes@), order));
        }
        output
    }
}

} // verus!
