//! Shared model of the linked-list BPE kernels.
//!
//! The indexed and heap kernels keep a piece as a doubly linked list over the
//! input positions. A merge rewrites the left node and deactivates the right
//! node. Merge candidates record the generations of their two nodes, so a
//! candidate is *valid* only while both nodes are active, adjacent, and
//! untouched since it was recorded.
//!
//! This module states the list invariant over an abstract view of the nodes
//! and proves once that a canonical merge step preserves it. The kernels only
//! show that their concrete updates match that abstract step. The full-width
//! node representation shared by the wide paths of both kernels lives here too.

use vstd::prelude::*;

use crate::bpe_semantics::{
    RuleMap, TokenId, apply_merge_at, canonical_encode, has_merge_at, is_best_merge,
    is_fully_merged, lemma_canonical_done, lemma_canonical_step, output_at, precedes, rank_at,
};

verus! {

/// Abstract view of one list node.
pub struct NodeView {
    pub token: TokenId,
    pub prev: Option<int>,
    pub next: Option<int>,
    pub generation: int,
    pub active: bool,
}

/// Abstract view of one merge candidate.
pub struct CandView {
    pub rank: nat,
    pub left: int,
    pub right: int,
    pub left_gen: int,
    pub right_gen: int,
    pub output: TokenId,
}

/// The `u32` wrapping successor of a generation.
pub open spec fn next_generation(g: int) -> int {
    if g + 1 > u32::MAX {
        g + 1 - 0x1_0000_0000
    } else {
        g + 1
    }
}

/// Positions of the active nodes in list order.
pub open spec fn strictly_increasing(order: Seq<int>) -> bool {
    forall|a: int, b: int| 0 <= a < b < order.len() ==> order[a] < order[b]
}

/// The nodes form one list, starting at node 0, whose active nodes are
/// exactly `order`, in increasing position order.
pub open spec fn list_wf(nodes: Seq<NodeView>, order: Seq<int>) -> bool {
    &&& order.len() >= 1
    &&& order[0] == 0
    &&& strictly_increasing(order)
    &&& forall|k: int| 0 <= k < order.len() ==> 0 <= #[trigger] order[k] < nodes.len()
    &&& forall|k: int|
        0 <= k < order.len() ==> (#[trigger] nodes[order[k]]).active && nodes[order[k]].prev == (
        if k == 0 {
            None::<int>
        } else {
            Some(order[k - 1])
        }) && nodes[order[k]].next == (if k + 1 == order.len() {
            None::<int>
        } else {
            Some(order[k + 1])
        })
    &&& forall|i: int|
        0 <= i < nodes.len() && (#[trigger] nodes[i]).active ==> exists|k: int|
            0 <= k < order.len() && order[k] == i
    &&& forall|i: int|
        0 <= i < nodes.len() && !(#[trigger] nodes[i]).active ==> nodes[i].prev is None
            && nodes[i].next is None
}

/// Token ids of the active nodes in list order.
pub open spec fn list_ids(nodes: Seq<NodeView>, order: Seq<int>) -> Seq<TokenId> {
    Seq::new(order.len(), |k: int| nodes[order[k]].token)
}

/// The candidate still describes two adjacent active nodes untouched since it
/// was recorded.
pub open spec fn cand_valid(nodes: Seq<NodeView>, c: CandView) -> bool {
    &&& 0 <= c.left < nodes.len()
    &&& 0 <= c.right < nodes.len()
    &&& nodes[c.left].active
    &&& nodes[c.right].active
    &&& nodes[c.left].next == Some(c.right)
    &&& nodes[c.right].prev == Some(c.left)
    &&& nodes[c.left].generation == c.left_gen
    &&& nodes[c.right].generation == c.right_gen
}

/// Every recorded node index is in range.
pub open spec fn cands_in_range(n: int, cands: Seq<CandView>) -> bool {
    forall|i: int|
        0 <= i < cands.len() ==> 0 <= (#[trigger] cands[i]).left < n && 0 <= cands[i].right < n
}

/// A valid candidate carries the current rule of its pair.
pub open spec fn cand_sound(rules: RuleMap, nodes: Seq<NodeView>, c: CandView) -> bool {
    cand_valid(nodes, c) ==> rules.contains_key((nodes[c.left].token, nodes[c.right].token))
        && rules[(nodes[c.left].token, nodes[c.right].token)] == (c.rank, c.output)
}

/// All candidates are sound.
pub open spec fn cands_sound(rules: RuleMap, nodes: Seq<NodeView>, cands: Seq<CandView>) -> bool {
    forall|i: int| 0 <= i < cands.len() ==> cand_sound(rules, nodes, #[trigger] cands[i])
}

/// Recorded generations never exceed the current ones.
pub open spec fn cands_gen_le(nodes: Seq<NodeView>, cands: Seq<CandView>) -> bool {
    forall|i: int|
        0 <= i < cands.len() ==> (#[trigger] cands[i]).left_gen <= nodes[cands[i].left].generation
            && cands[i].right_gen <= nodes[cands[i].right].generation
}

/// Some valid candidate describes the pair at list position `k`.
pub open spec fn pair_covered(
    nodes: Seq<NodeView>,
    order: Seq<int>,
    cands: Seq<CandView>,
    k: int,
) -> bool {
    exists|i: int|
        0 <= i < cands.len() && (#[trigger] cands[i]).left == order[k] && cand_valid(
            nodes,
            cands[i],
        )
}

/// Every mergeable pair has a valid candidate.
pub open spec fn cands_complete(
    rules: RuleMap,
    nodes: Seq<NodeView>,
    order: Seq<int>,
    cands: Seq<CandView>,
) -> bool {
    forall|k: int|
        #[trigger] has_merge_at(rules, list_ids(nodes, order), k) ==> pair_covered(
            nodes,
            order,
            cands,
            k,
        )
}

/// Generations are non-negative and bounded by the number of merges so far.
pub open spec fn gens_bounded(nodes: Seq<NodeView>, bound: int) -> bool {
    forall|i: int| 0 <= i < nodes.len() ==> 0 <= (#[trigger] nodes[i]).generation <= bound
}

/// The candidate bookkeeping that makes selection correct.
pub open spec fn cands_inv(
    rules: RuleMap,
    nodes: Seq<NodeView>,
    order: Seq<int>,
    cands: Seq<CandView>,
) -> bool {
    &&& cands_sound(rules, nodes, cands)
    &&& cands_gen_le(nodes, cands)
    &&& cands_complete(rules, nodes, order, cands)
    &&& gens_bounded(nodes, nodes.len() - order.len())
    &&& nodes.len() <= u32::MAX
}

/// Nodes after merging node `l` with its successor `r` into `output`.
pub open spec fn merged_nodes(nodes: Seq<NodeView>, l: int, r: int, output: TokenId) -> Seq<
    NodeView,
> {
    let next = nodes[r].next;
    let n1 = nodes.update(
        l,
        NodeView {
            token: output,
            prev: nodes[l].prev,
            next: next,
            generation: next_generation(nodes[l].generation),
            active: true,
        },
    ).update(
        r,
        NodeView {
            token: nodes[r].token,
            prev: None,
            next: None,
            generation: next_generation(nodes[r].generation),
            active: false,
        },
    );
    match next {
        Some(x) => n1.update(
            x,
            NodeView {
                token: n1[x].token,
                prev: Some(l),
                next: n1[x].next,
                generation: n1[x].generation,
                active: n1[x].active,
            },
        ),
        None => n1,
    }
}

/// Initial list over `n` positions holding `tokens`.
pub open spec fn initial_nodes(tokens: Seq<TokenId>) -> Seq<NodeView> {
    Seq::new(
        tokens.len(),
        |i: int|
            NodeView {
                token: tokens[i],
                prev: if i == 0 {
                    None
                } else {
                    Some(i - 1)
                },
                next: if i + 1 < tokens.len() {
                    Some(i + 1)
                } else {
                    None
                },
                generation: 0,
                active: true,
            },
    )
}

/// Identity order over `n` positions.
pub open spec fn initial_order(n: int) -> Seq<int> {
    Seq::new(n as nat, |i: int| i)
}

/// The initial list is well formed and holds the input tokens.
pub proof fn lemma_initial_list(tokens: Seq<TokenId>)
    requires
        tokens.len() >= 1,
    ensures
        list_wf(initial_nodes(tokens), initial_order(tokens.len() as int)),
        list_ids(initial_nodes(tokens), initial_order(tokens.len() as int)) == tokens,
        gens_bounded(initial_nodes(tokens), 0),
{
    let nodes = initial_nodes(tokens);
    let order = initial_order(tokens.len() as int);
    assert forall|i: int| 0 <= i < nodes.len() && (#[trigger] nodes[i]).active implies exists|k: int|
        0 <= k < order.len() && order[k] == i by {
        assert(order[i] == i);
    }
    assert(list_ids(nodes, order) =~= tokens);
}

/// A valid candidate sits at some list position.
pub proof fn lemma_valid_cand_position(nodes: Seq<NodeView>, order: Seq<int>, c: CandView) -> (k: int)
    requires
        list_wf(nodes, order),
        cand_valid(nodes, c),
    ensures
        0 <= k < order.len() - 1,
        order[k] == c.left,
        order[k + 1] == c.right,
{
    let k = choose|k: int| 0 <= k < order.len() && order[k] == c.left;
    assert(nodes[order[k]].active);
    k
}

/// Under the candidate invariant, a valid candidate with the least
/// `(rank, left)` key describes the best canonical merge.
pub proof fn lemma_least_valid_is_best(
    rules: RuleMap,
    nodes: Seq<NodeView>,
    order: Seq<int>,
    cands: Seq<CandView>,
    c: CandView,
) -> (k: int)
    requires
        list_wf(nodes, order),
        cands_sound(rules, nodes, cands),
        cands_complete(rules, nodes, order, cands),
        cand_valid(nodes, c),
        cand_sound(rules, nodes, c),
        forall|i: int|
            0 <= i < cands.len() && cand_valid(nodes, #[trigger] cands[i]) ==> precedes(
                c.rank as int,
                c.left,
                cands[i].rank as int,
                cands[i].left,
            ),
    ensures
        0 <= k < order.len() - 1,
        order[k] == c.left,
        order[k + 1] == c.right,
        is_best_merge(rules, list_ids(nodes, order), k),
        output_at(rules, list_ids(nodes, order), k) == c.output,
{
    let ids = list_ids(nodes, order);
    let k = lemma_valid_cand_position(nodes, order, c);
    assert(ids[k] == nodes[c.left].token && ids[k + 1] == nodes[c.right].token);
    assert forall|q: int| #[trigger] has_merge_at(rules, ids, q) implies precedes(
        rank_at(rules, ids, k) as int,
        k,
        rank_at(rules, ids, q) as int,
        q,
    ) by {
        assert(pair_covered(nodes, order, cands, q));
        let i = choose|i: int|
            0 <= i < cands.len() && (#[trigger] cands[i]).left == order[q] && cand_valid(
                nodes,
                cands[i],
            );
        let cq = cands[i];
        let kq = lemma_valid_cand_position(nodes, order, cq);
        assert(kq == q) by {
            if kq < q {
                assert(order[kq] < order[q]);
            } else if q < kq {
                assert(order[q] < order[kq]);
            }
        }
        assert(cand_sound(rules, nodes, cq));
        assert(ids[q] == nodes[cq.left].token && ids[q + 1] == nodes[cq.right].token);
        if q < k {
            assert(order[q] < order[k]);
        } else if k < q {
            assert(order[k] < order[q]);
        }
    }
    k
}

/// Positions of the list after removing list position `k + 1`.
proof fn lemma_merge_order(order: Seq<int>, k: int)
    requires
        strictly_increasing(order),
        0 <= k < order.len() - 1,
    ensures
        strictly_increasing(order.remove(k + 1)),
        order.remove(k + 1).len() == order.len() - 1,
        forall|m: int|
            0 <= m < order.len() - 1 ==> #[trigger] order.remove(k + 1)[m] == (if m <= k {
                order[m]
            } else {
                order[m + 1]
            }),
{
    let new_order = order.remove(k + 1);
    assert forall|a: int, b: int| 0 <= a < b < new_order.len() implies new_order[a]
        < new_order[b] by {}
}

/// The links of the merged list.
#[verifier::rlimit(40)]
proof fn lemma_merge_links(nodes: Seq<NodeView>, order: Seq<int>, k: int, output: TokenId)
    requires
        list_wf(nodes, order),
        0 <= k < order.len() - 1,
    ensures
        list_wf(merged_nodes(nodes, order[k], order[k + 1], output), order.remove(k + 1)),
        merged_nodes(nodes, order[k], order[k + 1], output).len() == nodes.len(),
{
    let l = order[k];
    let r = order[k + 1];
    let new_nodes = merged_nodes(nodes, l, r, output);
    let new_order = order.remove(k + 1);
    lemma_merge_order(order, k);
    assert(nodes[order[k]].next == Some(r));
    assert(nodes[order[k + 1]].prev == Some(l));
    assert(l < r);
    let next = nodes[r].next;
    assert(next == if k + 2 == order.len() {
        None::<int>
    } else {
        Some(order[k + 2])
    });
    assert forall|m: int| 0 <= m < new_order.len() implies 0 <= #[trigger] new_order[m]
        < new_nodes.len() by {}
    assert forall|m: int| 0 <= m < new_order.len() implies (#[trigger] new_nodes[new_order[m]]).active
        && new_nodes[new_order[m]].prev == (if m == 0 {
        None::<int>
    } else {
        Some(new_order[m - 1])
    }) && new_nodes[new_order[m]].next == (if m + 1 == new_order.len() {
        None::<int>
    } else {
        Some(new_order[m + 1])
    }) by {
        if m < k {
            assert(order[m] < l);
            if next is Some {
                assert(order[m] < order[k + 2]);
            }
            assert(nodes[order[m]].active);
        } else if m == k {
            if next is Some {
                assert(l < order[k + 2]);
            }
        } else {
            assert(order[m + 1] > r);
            if m == k + 1 {
                assert(next == Some(order[k + 2]));
            } else {
                assert(order[m + 1] > order[k + 2]);
            }
            assert(nodes[order[m + 1]].active);
        }
    }
    assert forall|i: int| 0 <= i < new_nodes.len() && (#[trigger] new_nodes[i]).active implies exists|
        m: int,
    | 0 <= m < new_order.len() && new_order[m] == i by {
        assert(i != r);
        if next is Some && i == next.unwrap() {
            assert(new_order[k + 1] == i);
        } else if i == l {
            assert(new_order[k] == i);
        } else {
            assert(nodes[i].active);
            let j = choose|j: int| 0 <= j < order.len() && order[j] == i;
            if j < k + 1 {
                assert(new_order[j] == i);
            } else {
                assert(j != k + 1);
                assert(new_order[j - 1] == i);
            }
        }
    }
    assert forall|i: int| 0 <= i < new_nodes.len() && !(#[trigger] new_nodes[i]).active implies new_nodes[i].prev
        is None && new_nodes[i].next is None by {
        if i != r {
            if next is Some {
                assert(i != next.unwrap());
            }
            assert(i != l);
        }
    }
}

/// The tokens of the merged list are those of one canonical merge step.
proof fn lemma_merge_ids(nodes: Seq<NodeView>, order: Seq<int>, k: int, output: TokenId)
    requires
        list_wf(nodes, order),
        0 <= k < order.len() - 1,
    ensures
        list_ids(merged_nodes(nodes, order[k], order[k + 1], output), order.remove(k + 1))
            == apply_merge_at(list_ids(nodes, order), k, output),
{
    let l = order[k];
    let r = order[k + 1];
    let ids = list_ids(nodes, order);
    let new_nodes = merged_nodes(nodes, l, r, output);
    let new_order = order.remove(k + 1);
    let new_ids = list_ids(new_nodes, new_order);
    lemma_merge_order(order, k);
    assert(nodes[order[k]].next == Some(r));
    assert(l < r);
    let next = nodes[r].next;
    assert(next == if k + 2 == order.len() {
        None::<int>
    } else {
        Some(order[k + 2])
    });
    assert(new_ids =~= apply_merge_at(ids, k, output)) by {
        assert forall|m: int| 0 <= m < new_ids.len() implies new_ids[m] == apply_merge_at(
            ids,
            k,
            output,
        )[m] by {
            if m < k {
                assert(order[m] < l);
            } else if m > k {
                assert(order[m + 1] > r);
                if next is Some {
                    if m > k + 1 {
                        assert(order[m + 1] > order[k + 2]);
                    }
                }
            }
        }
    }
}

/// Without wrapping generations, the kept candidates stay sound and their
/// recorded generations stay below the current ones.
proof fn lemma_merge_generations(
    rules: RuleMap,
    nodes: Seq<NodeView>,
    order: Seq<int>,
    kept: Seq<CandView>,
    k: int,
    output: TokenId,
)
    requires
        list_wf(nodes, order),
        0 <= k < order.len() - 1,
        cands_in_range(nodes.len() as int, kept),
        cands_sound(rules, nodes, kept),
        cands_gen_le(nodes, kept),
        gens_bounded(nodes, nodes.len() - order.len()),
        nodes.len() <= u32::MAX,
    ensures
        cands_sound(rules, merged_nodes(nodes, order[k], order[k + 1], output), kept),
        cands_gen_le(merged_nodes(nodes, order[k], order[k + 1], output), kept),
        gens_bounded(
            merged_nodes(nodes, order[k], order[k + 1], output),
            nodes.len() - (order.len() - 1),
        ),
{
    let l = order[k];
    let r = order[k + 1];
    let new_nodes = merged_nodes(nodes, l, r, output);
    assert(nodes[order[k]].next == Some(r));
    assert(nodes[order[k + 1]].prev == Some(l));
    assert(l < r);
    let next = nodes[r].next;
    assert(next == if k + 2 == order.len() {
        None::<int>
    } else {
        Some(order[k + 2])
    });
    let n = nodes.len();
    assert(nodes[l].generation <= n - order.len());
    assert(nodes[r].generation <= n - order.len());
    assert(next_generation(nodes[l].generation) == nodes[l].generation + 1);
    assert(next_generation(nodes[r].generation) == nodes[r].generation + 1);
    assert forall|i: int| 0 <= i < new_nodes.len() implies 0 <= (
    #[trigger] new_nodes[i]).generation <= n - (order.len() - 1) by {}
    assert forall|i: int| 0 <= i < kept.len() implies cand_sound(
        rules,
        new_nodes,
        #[trigger] kept[i],
    ) by {
        let c = kept[i];
        assert(cand_sound(rules, nodes, c));
        if cand_valid(new_nodes, c) {
            assert(c.left != r && c.right != r);
            assert(c.left != l) by {
                if c.left == l {
                    assert(c.left_gen <= nodes[l].generation);
                }
            }
            assert(c.right != l) by {
                if c.right == l {
                    assert(c.right_gen <= nodes[l].generation);
                }
            }
            if next is Some {
                assert(c.right != next.unwrap());
            }
            assert(cand_valid(nodes, c));
        }
    }
    assert forall|i: int| 0 <= i < kept.len() implies (#[trigger] kept[i]).left_gen
        <= new_nodes[kept[i].left].generation && kept[i].right_gen
        <= new_nodes[kept[i].right].generation by {}
}

/// Pairs away from the merge keep their valid candidates.
#[verifier::rlimit(40)]
proof fn lemma_merge_coverage(
    rules: RuleMap,
    nodes: Seq<NodeView>,
    order: Seq<int>,
    kept: Seq<CandView>,
    k: int,
    output: TokenId,
)
    requires
        list_wf(nodes, order),
        0 <= k < order.len() - 1,
        cands_in_range(nodes.len() as int, kept),
        forall|m: int|
            m != k && #[trigger] has_merge_at(rules, list_ids(nodes, order), m) ==> pair_covered(
                nodes,
                order,
                kept,
                m,
            ),
    ensures
        forall|m: int|
            m != k - 1 && m != k && #[trigger] has_merge_at(
                rules,
                list_ids(
                    merged_nodes(nodes, order[k], order[k + 1], output),
                    order.remove(k + 1),
                ),
                m,
            ) ==> pair_covered(
                merged_nodes(nodes, order[k], order[k + 1], output),
                order.remove(k + 1),
                kept,
                m,
            ),
{
    let l = order[k];
    let r = order[k + 1];
    let ids = list_ids(nodes, order);
    let new_nodes = merged_nodes(nodes, l, r, output);
    let new_order = order.remove(k + 1);
    let new_ids = list_ids(new_nodes, new_order);
    lemma_merge_order(order, k);
    lemma_merge_ids(nodes, order, k, output);
    assert(nodes[order[k]].next == Some(r));
    assert(nodes[order[k + 1]].prev == Some(l));
    assert(l < r);
    let next = nodes[r].next;
    assert(next == if k + 2 == order.len() {
        None::<int>
    } else {
        Some(order[k + 2])
    });
    assert forall|m: int|
        m != k - 1 && m != k && #[trigger] has_merge_at(rules, new_ids, m) implies pair_covered(
        new_nodes,
        new_order,
        kept,
        m,
    ) by {
        let om = if m < k {
            m
        } else {
            m + 1
        };
        assert(new_order[m] == order[om]);
        assert(new_order[m + 1] == order[om + 1]);
        assert(new_ids[m] == ids[om] && new_ids[m + 1] == ids[om + 1]);
        assert(has_merge_at(rules, ids, om));
        assert(pair_covered(nodes, order, kept, om));
        let i = choose|i: int|
            0 <= i < kept.len() && (#[trigger] kept[i]).left == order[om] && cand_valid(
                nodes,
                kept[i],
            );
        let c = kept[i];
        let kc = lemma_valid_cand_position(nodes, order, c);
        assert(kc == om) by {
            if kc < om {
                assert(order[kc] < order[om]);
            } else if om < kc {
                assert(order[om] < order[kc]);
            }
        }
        if m < k {
            assert(order[m + 1] < l);
        }
        assert(c.left != l && c.left != r);
        assert(c.right != l && c.right != r);
        assert(cand_valid(new_nodes, c)) by {
            if next is Some {
                if c.right == next.unwrap() {
                    assert(om + 1 == k + 2);
                }
            }
        }
    }
}

/// Merging list position `k` with its successor keeps the list well formed
/// and performs one canonical merge step on its tokens.
pub proof fn lemma_merge_step(nodes: Seq<NodeView>, order: Seq<int>, k: int, output: TokenId)
    requires
        list_wf(nodes, order),
        0 <= k < order.len() - 1,
    ensures
        list_wf(merged_nodes(nodes, order[k], order[k + 1], output), order.remove(k + 1)),
        merged_nodes(nodes, order[k], order[k + 1], output).len() == nodes.len(),
        list_ids(merged_nodes(nodes, order[k], order[k + 1], output), order.remove(k + 1))
            == apply_merge_at(list_ids(nodes, order), k, output),
        order.remove(k + 1).len() == order.len() - 1,
{
    lemma_merge_order(order, k);
    lemma_merge_links(nodes, order, k, output);
    lemma_merge_ids(nodes, order, k, output);
}

/// Merging at position `k` keeps the candidate bookkeeping of every other pair.
pub proof fn lemma_merge_bookkeeping(
    rules: RuleMap,
    nodes: Seq<NodeView>,
    order: Seq<int>,
    kept: Seq<CandView>,
    k: int,
    output: TokenId,
)
    requires
        list_wf(nodes, order),
        0 <= k < order.len() - 1,
        cands_in_range(nodes.len() as int, kept),
        cands_sound(rules, nodes, kept),
        cands_gen_le(nodes, kept),
        gens_bounded(nodes, nodes.len() - order.len()),
        nodes.len() <= u32::MAX,
        forall|m: int|
            m != k && #[trigger] has_merge_at(rules, list_ids(nodes, order), m) ==> pair_covered(
                nodes,
                order,
                kept,
                m,
            ),
    ensures
        ({
            let new_nodes = merged_nodes(nodes, order[k], order[k + 1], output);
            let new_order = order.remove(k + 1);
            &&& cands_sound(rules, new_nodes, kept)
            &&& cands_gen_le(new_nodes, kept)
            &&& gens_bounded(new_nodes, new_nodes.len() - new_order.len())
            &&& forall|m: int|
                m != k - 1 && m != k && #[trigger] has_merge_at(
                    rules,
                    list_ids(new_nodes, new_order),
                    m,
                ) ==> pair_covered(new_nodes, new_order, kept, m)
        }),
{
    lemma_merge_step(nodes, order, k, output);
    lemma_merge_generations(rules, nodes, order, kept, k, output);
    lemma_merge_coverage(rules, nodes, order, kept, k, output);
}

/// The candidate list after `Vec::swap_remove` at index `i`.
pub open spec fn swap_removed(cands: Seq<CandView>, i: int) -> Seq<CandView> {
    cands.update(i, cands.last()).drop_last()
}

/// Every candidate of the list is valid.
pub open spec fn all_valid(nodes: Seq<NodeView>, cands: Seq<CandView>) -> bool {
    forall|i: int| 0 <= i < cands.len() ==> cand_valid(nodes, #[trigger] cands[i])
}

/// Candidate `b` has the least `(rank, left)` key of the list.
pub open spec fn is_least_cand(cands: Seq<CandView>, b: int) -> bool {
    &&& 0 <= b < cands.len()
    &&& forall|i: int|
        0 <= i < cands.len() ==> precedes(
            cands[b].rank as int,
            cands[b].left,
            (#[trigger] cands[i]).rank as int,
            cands[i].left,
        )
}

/// When no candidate is valid, the complete bookkeeping shows that the piece
/// is fully merged, so it is its own canonical encoding.
pub proof fn lemma_no_candidate_done(
    rules: RuleMap,
    nodes: Seq<NodeView>,
    order: Seq<int>,
    cands: Seq<CandView>,
)
    requires
        cands_complete(rules, nodes, order, cands),
        forall|i: int| 0 <= i < cands.len() ==> !cand_valid(nodes, #[trigger] cands[i]),
    ensures
        is_fully_merged(rules, list_ids(nodes, order)),
        canonical_encode(rules, list_ids(nodes, order)) == list_ids(nodes, order),
{
    let ids = list_ids(nodes, order);
    assert forall|p: int| !#[trigger] has_merge_at(rules, ids, p) by {
        if has_merge_at(rules, ids, p) {
            assert(pair_covered(nodes, order, cands, p));
        }
    }
    lemma_canonical_done(rules, ids);
}

/// One step of the linked-list kernels: merging the pair of the least valid
/// candidate is the canonical merge, and the remaining candidates keep their
/// bookkeeping for every pair the merge did not touch.
pub proof fn lemma_indexed_step(
    rules: RuleMap,
    nodes: Seq<NodeView>,
    order: Seq<int>,
    cands: Seq<CandView>,
    b: int,
    bounded: bool,
) -> (k: int)
    requires
        list_wf(nodes, order),
        all_valid(nodes, cands),
        is_least_cand(cands, b),
        bounded ==> cands_inv(rules, nodes, order, cands),
    ensures
        0 <= k < order.len() - 1,
        order[k] == cands[b].left,
        order[k + 1] == cands[b].right,
        list_wf(merged_nodes(nodes, order[k], order[k + 1], cands[b].output), order.remove(k + 1)),
        merged_nodes(nodes, order[k], order[k + 1], cands[b].output).len() == nodes.len(),
        order.remove(k + 1).len() == order.len() - 1,
        cands_in_range(nodes.len() as int, swap_removed(cands, b)),
        bounded ==> ({
            let new_nodes = merged_nodes(nodes, order[k], order[k + 1], cands[b].output);
            let new_order = order.remove(k + 1);
            let rest = swap_removed(cands, b);
            &&& canonical_encode(rules, list_ids(new_nodes, new_order)) == canonical_encode(
                rules,
                list_ids(nodes, order),
            )
            &&& cands_sound(rules, new_nodes, rest)
            &&& cands_gen_le(new_nodes, rest)
            &&& gens_bounded(new_nodes, new_nodes.len() - new_order.len())
            &&& forall|m: int|
                m != k - 1 && m != k && #[trigger] has_merge_at(
                    rules,
                    list_ids(new_nodes, new_order),
                    m,
                ) ==> pair_covered(new_nodes, new_order, rest, m)
        }),
{
    let c = cands[b];
    let rest = swap_removed(cands, b);
    let k = lemma_valid_cand_position(nodes, order, c);
    let output = c.output;
    lemma_merge_step(nodes, order, k, output);
    assert forall|i: int| 0 <= i < rest.len() implies 0 <= (#[trigger] rest[i]).left
        < nodes.len() && 0 <= rest[i].right < nodes.len() by {
        if i == b {
            assert(cand_valid(nodes, cands[cands.len() - 1]));
        } else {
            assert(cand_valid(nodes, cands[i]));
        }
    }
    if bounded {
        assert(cand_sound(rules, nodes, c));
        assert forall|i: int|
            0 <= i < cands.len() && cand_valid(nodes, #[trigger] cands[i]) implies precedes(
            c.rank as int,
            c.left,
            cands[i].rank as int,
            cands[i].left,
        ) by {}
        let k2 = lemma_least_valid_is_best(rules, nodes, order, cands, c);
        assert(k2 == k) by {
            if k2 < k {
                assert(order[k2] < order[k]);
            } else if k < k2 {
                assert(order[k] < order[k2]);
            }
        }
        lemma_canonical_step(rules, list_ids(nodes, order), k);
        assert(cands_sound(rules, nodes, rest)) by {
            assert forall|i: int| 0 <= i < rest.len() implies cand_sound(
                rules,
                nodes,
                #[trigger] rest[i],
            ) by {
                if i == b {
                    assert(cand_sound(rules, nodes, cands[cands.len() - 1]));
                } else {
                    assert(cand_sound(rules, nodes, cands[i]));
                }
            }
        }
        assert(cands_gen_le(nodes, rest)) by {
            assert forall|i: int| 0 <= i < rest.len() implies (#[trigger] rest[i]).left_gen
                <= nodes[rest[i].left].generation && rest[i].right_gen
                <= nodes[rest[i].right].generation by {
                if i == b {
                    let j = cands.len() - 1;
                    assert(cands[j].left_gen <= nodes[cands[j].left].generation);
                } else {
                    assert(cands[i].left_gen <= nodes[cands[i].left].generation);
                }
            }
        }
        let ids = list_ids(nodes, order);
        assert forall|m: int| m != k && #[trigger] has_merge_at(rules, ids, m) implies pair_covered(
            nodes,
            order,
            rest,
            m,
        ) by {
            assert(pair_covered(nodes, order, cands, m));
            let i = choose|i: int|
                0 <= i < cands.len() && (#[trigger] cands[i]).left == order[m] && cand_valid(
                    nodes,
                    cands[i],
                );
            assert(order[m] != order[k]) by {
                if m < k {
                    assert(order[m] < order[k]);
                } else {
                    assert(order[k] < order[m]);
                }
            }
            assert(i != b);
            if i == cands.len() - 1 {
                assert(rest[b] == cands[i]);
            } else {
                assert(rest[i] == cands[i]);
            }
        }
        lemma_merge_bookkeeping(rules, nodes, order, rest, k, output);
    }
    k
}

/// Pairs next to a merge become covered again once a valid candidate for each
/// of them, when it has a rule, is appended.
pub proof fn lemma_complete_after_push(
    rules: RuleMap,
    nodes: Seq<NodeView>,
    order: Seq<int>,
    base: Seq<CandView>,
    all: Seq<CandView>,
    k: int,
)
    requires
        base.len() <= all.len(),
        forall|i: int| 0 <= i < base.len() ==> all[i] == base[i],
        forall|m: int|
            m != k - 1 && m != k && #[trigger] has_merge_at(rules, list_ids(nodes, order), m)
                ==> pair_covered(nodes, order, base, m),
        has_merge_at(rules, list_ids(nodes, order), k - 1) ==> pair_covered(
            nodes,
            order,
            all,
            k - 1,
        ),
        has_merge_at(rules, list_ids(nodes, order), k) ==> pair_covered(nodes, order, all, k),
    ensures
        cands_complete(rules, nodes, order, all),
{
    assert forall|m: int| #[trigger] has_merge_at(rules, list_ids(nodes, order), m) implies pair_covered(
        nodes,
        order,
        all,
        m,
    ) by {
        if m != k - 1 && m != k {
            let i = choose|i: int|
                0 <= i < base.len() && (#[trigger] base[i]).left == order[m] && cand_valid(
                    nodes,
                    base[i],
                );
            assert(all[i] == base[i]);
        }
    }
}

/// Keeping exactly the valid candidates keeps the bookkeeping.
pub proof fn lemma_filter_valid(
    rules: RuleMap,
    nodes: Seq<NodeView>,
    order: Seq<int>,
    cands: Seq<CandView>,
    kept: Seq<CandView>,
)
    requires
        list_wf(nodes, order),
        cands_inv(rules, nodes, order, cands),
        all_valid(nodes, kept),
        forall|t: int|
            0 <= t < cands.len() && cand_valid(nodes, #[trigger] cands[t]) ==> kept.contains(
                cands[t],
            ),
        forall|i: int| 0 <= i < kept.len() ==> cands.contains(#[trigger] kept[i]),
    ensures
        cands_inv(rules, nodes, order, kept),
{
    assert forall|i: int| 0 <= i < kept.len() implies cand_sound(rules, nodes, #[trigger] kept[i])
        && kept[i].left_gen <= nodes[kept[i].left].generation && kept[i].right_gen
        <= nodes[kept[i].right].generation by {
        let t = choose|t: int| 0 <= t < cands.len() && cands[t] == kept[i];
        assert(cand_sound(rules, nodes, cands[t]));
        assert(cands[t].left_gen <= nodes[cands[t].left].generation);
    }
    assert forall|m: int| #[trigger] has_merge_at(rules, list_ids(nodes, order), m) implies pair_covered(
        nodes,
        order,
        kept,
        m,
    ) by {
        assert(pair_covered(nodes, order, cands, m));
        let t = choose|t: int|
            0 <= t < cands.len() && (#[trigger] cands[t]).left == order[m] && cand_valid(
                nodes,
                cands[t],
            );
        let i = choose|i: int| 0 <= i < kept.len() && kept[i] == cands[t];
        assert(kept[i].left == order[m]);
    }
}

/// One node of the wide linked list.
#[derive(Clone, Copy, Debug, PartialEq, Eq)]
pub struct WideNode {
    pub token: TokenId,
    pub prev: Option<usize>,
    pub next: Option<usize>,
    pub generation: u32,
    pub active: bool,
}

/// One merge candidate of the wide kernel.
#[derive(Clone, Copy, Debug, PartialEq, Eq)]
pub struct WideCandidate {
    pub rank: usize,
    pub left: usize,
    pub right: usize,
    pub left_generation: u32,
    pub right_generation: u32,
    pub output: TokenId,
}

pub open spec fn opt_index(o: Option<usize>) -> Option<int> {
    match o {
        Some(i) => Some(i as int),
        None => None,
    }
}

/// The list view of a node. Only active nodes are in the list, so only
/// their links are part of the view; the stored links of a merged-away node
/// are shown as `None` (`merge_wide_nodes` states separately that it keeps
/// them as they were).
pub open spec fn wide_node_view(n: WideNode) -> NodeView {
    NodeView {
        token: n.token,
        prev: if n.active {
            opt_index(n.prev)
        } else {
            None
        },
        next: if n.active {
            opt_index(n.next)
        } else {
            None
        },
        generation: n.generation as int,
        active: n.active,
    }
}

pub open spec fn wide_nodes_view(nodes: Seq<WideNode>) -> Seq<NodeView> {
    nodes.map_values(|n: WideNode| wide_node_view(n))
}

pub open spec fn wide_cand_view(c: WideCandidate) -> CandView {
    CandView {
        rank: c.rank as nat,
        left: c.left as int,
        right: c.right as int,
        left_gen: c.left_generation as int,
        right_gen: c.right_generation as int,
        output: c.output,
    }
}

pub open spec fn wide_cands_view(cands: Seq<WideCandidate>) -> Seq<CandView> {
    cands.map_values(|c: WideCandidate| wide_cand_view(c))
}

/// The candidate a kernel records for the adjacent nodes `left`, `right`.
pub open spec fn recorded_cand(rules: RuleMap, nodes: Seq<NodeView>, left: int, right: int) -> CandView {
    let pair = (nodes[left].token, nodes[right].token);
    CandView {
        rank: rules[pair].0,
        left: left,
        right: right,
        left_gen: nodes[left].generation,
        right_gen: nodes[right].generation,
        output: rules[pair].1,
    }
}

/// The effect of recording a candidate: appended exactly when the pair has a rule.
pub open spec fn pushed(
    rules: RuleMap,
    nodes: Seq<NodeView>,
    left: int,
    right: int,
    before: Seq<CandView>,
    after: Seq<CandView>,
) -> bool {
    if rules.contains_key((nodes[left].token, nodes[right].token)) {
        after == before.push(recorded_cand(rules, nodes, left, right))
    } else {
        after == before
    }
}

/// A recorded candidate of two adjacent list nodes is valid and sound.
pub proof fn lemma_recorded_cand(rules: RuleMap, nodes: Seq<NodeView>, order: Seq<int>, m: int)
    requires
        list_wf(nodes, order),
        0 <= m < order.len() - 1,
        rules.contains_key((nodes[order[m]].token, nodes[order[m + 1]].token)),
    ensures
        cand_valid(nodes, recorded_cand(rules, nodes, order[m], order[m + 1])),
        cand_sound(rules, nodes, recorded_cand(rules, nodes, order[m], order[m + 1])),
        list_ids(nodes, order)[m] == nodes[order[m]].token,
        list_ids(nodes, order)[m + 1] == nodes[order[m + 1]].token,
{
    assert(nodes[order[m]].active);
    assert(nodes[order[m + 1]].active);
}

pub fn wide_candidate_is_valid(nodes: &Vec<WideNode>, candidate: WideCandidate) -> (b: bool)
    ensures
        b <==> cand_valid(wide_nodes_view(nodes@), wide_cand_view(candidate)),
{
    if candidate.left >= nodes.len() || candidate.right >= nodes.len() {
        return false;
    }
    let left = nodes[candidate.left];
    let right = nodes[candidate.right];
    left.active && right.active && left.next == Some(candidate.right) && right.prev == Some(
        candidate.left,
    ) && left.generation == candidate.left_generation && right.generation
        == candidate.right_generation
}

pub fn retain_valid_wide(nodes: &Vec<WideNode>, candidates: &Vec<WideCandidate>) -> (kept: Vec<
    WideCandidate,
>)
    ensures
        all_valid(wide_nodes_view(nodes@), wide_cands_view(kept@)),
        forall|t: int|
            0 <= t < candidates.len() && cand_valid(
                wide_nodes_view(nodes@),
                #[trigger] wide_cands_view(candidates@)[t],
            ) ==> wide_cands_view(kept@).contains(wide_cands_view(candidates@)[t]),
        forall|i: int|
            0 <= i < kept.len() ==> wide_cands_view(candidates@).contains(
                #[trigger] wide_cands_view(kept@)[i],
            ),
{
    let ghost nv = wide_nodes_view(nodes@);
    let ghost cv = wide_cands_view(candidates@);
    let mut kept: Vec<WideCandidate> = Vec::new();
    let mut j: usize = 0;
    while j < candidates.len()
        invariant
            nv == wide_nodes_view(nodes@),
            cv == wide_cands_view(candidates@),
            j <= candidates.len(),
            all_valid(nv, wide_cands_view(kept@)),
            forall|t: int|
                0 <= t < j && cand_valid(nv, #[trigger] cv[t]) ==> wide_cands_view(
                    kept@,
                ).contains(cv[t]),
            forall|i: int|
                0 <= i < kept.len() ==> cv.contains(#[trigger] wide_cands_view(kept@)[i]),
        decreases candidates.len() - j,
    {
        let c = candidates[j];
        if wide_candidate_is_valid(nodes, c) {
            let ghost kb = wide_cands_view(kept@);
            kept.push(c);
            proof {
                let ka = wide_cands_view(kept@);
                assert(ka =~= kb.push(cv[j as int]));
                assert forall|t: int|
                    0 <= t < j + 1 && cand_valid(nv, #[trigger] cv[t]) implies ka.contains(
                    cv[t],
                ) by {
                    if t < j {
                        let i = choose|i: int| 0 <= i < kb.len() && kb[i] == cv[t];
                        assert(ka[i] == kb[i]);
                    } else {
                        assert(ka[kb.len() as int] == cv[t]);
                    }
                }
                assert forall|i: int| 0 <= i < ka.len() implies cv.contains(#[trigger] ka[i]) by {
                    if i < kb.len() {
                        assert(ka[i] == kb[i]);
                    } else {
                        assert(cv[j as int] == ka[i]);
                    }
                }
            }
        }
        j = j + 1;
    }
    kept
}

pub fn least_wide_candidate(kept: &Vec<WideCandidate>) -> (best: usize)
    requires
        kept.len() > 0,
    ensures
        is_least_cand(wide_cands_view(kept@), best as int),
{
    let ghost kv = wide_cands_view(kept@);
    let mut best: usize = 0;
    let mut j: usize = 1;
    while j < kept.len()
        invariant
            kv == wide_cands_view(kept@),
            best < kept.len(),
            1 <= j <= kept.len(),
            forall|i: int| 0 <= i < j ==> precedes_cand(kv[best as int], #[trigger] kv[i]),
        decreases kept.len() - j,
    {
        let c = kept[j];
        let b = kept[best];
        if c.rank < b.rank || (c.rank == b.rank && c.left < b.left) {
            best = j;
        }
        j = j + 1;
    }
    best
}

/// Merges node `left` with its successor `right` into `output`: `left` takes
/// the output token and `right`'s successor, `right` becomes inactive with
/// its stored links unchanged, and the successor links back to `left`.
pub fn merge_wide_nodes(nodes: &mut Vec<WideNode>, left: usize, right: usize, output: TokenId) -> (links: (
    Option<usize>,
    Option<usize>,
))
    requires
        left < old(nodes).len(),
        right < old(nodes).len(),
        left != right,
        old(nodes)@[left as int].active,
        old(nodes)@[right as int].active,
        old(nodes)@[right as int].next matches Some(x) ==> x < old(nodes).len() && x != left
            && x != right && old(nodes)@[x as int].active,
    ensures
        wide_nodes_view(final(nodes)@) == merged_nodes(
            wide_nodes_view(old(nodes)@),
            left as int,
            right as int,
            output,
        ),
        links.0 == old(nodes)@[left as int].prev,
        links.1 == old(nodes)@[right as int].next,
        final(nodes).len() == old(nodes).len(),
        final(nodes)@[right as int].prev == old(nodes)@[right as int].prev,
        final(nodes)@[right as int].next == old(nodes)@[right as int].next,
{
    let left_node = nodes[left];
    let right_node = nodes[right];
    let prev = left_node.prev;
    let next = right_node.next;
    nodes.set(
        left,
        WideNode {
            token: output,
            prev: left_node.prev,
            next,
            generation: left_node.generation.wrapping_add(1),
            active: left_node.active,
        },
    );
    nodes.set(
        right,
        WideNode {
            token: right_node.token,
            prev: right_node.prev,
            next: right_node.next,
            generation: right_node.generation.wrapping_add(1),
            active: false,
        },
    );
    if let Some(next_index) = next {
        let next_node = nodes[next_index];
        nodes.set(
            next_index,
            WideNode {
                token: next_node.token,
                prev: Some(left),
                next: next_node.next,
                generation: next_node.generation,
                active: next_node.active,
            },
        );
    }
    proof {
        assert(wide_nodes_view(nodes@) =~= merged_nodes(
            wide_nodes_view(old(nodes)@),
            left as int,
            right as int,
            output,
        ));
    }
    (prev, next)
}

/// `a` comes no later than `b` in the canonical `(rank, left)` order.
pub open spec fn precedes_cand(a: CandView, b: CandView) -> bool {
    crate::bpe_semantics::precedes(a.rank as int, a.left, b.rank as int, b.left)
}

/// After the merge, recording the candidates of the two new adjacencies
/// restores the complete candidate bookkeeping.
pub proof fn lemma_after_pushes(
    rules: RuleMap,
    nodes: Seq<NodeView>,
    order: Seq<int>,
    base: Seq<CandView>,
    mid: Seq<CandView>,
    after: Seq<CandView>,
    k: int,
    prev: Option<usize>,
    next: Option<usize>,
)
    requires
        list_wf(nodes, order),
        0 <= k < order.len(),
        nodes.len() <= u32::MAX,
        cands_sound(rules, nodes, base),
        cands_gen_le(nodes, base),
        gens_bounded(nodes, nodes.len() - order.len()),
        forall|m: int|
            m != k - 1 && m != k && #[trigger] has_merge_at(rules, list_ids(nodes, order), m)
                ==> pair_covered(nodes, order, base, m),
        opt_index(prev) == (if k > 0 {
            Some(order[k - 1])
        } else {
            None::<int>
        }),
        opt_index(next) == (if k + 1 < order.len() {
            Some(order[k + 1])
        } else {
            None::<int>
        }),
        match prev {
            Some(p) => pushed(rules, nodes, p as int, order[k], base, mid),
            None => mid == base,
        },
        match next {
            Some(x) => pushed(rules, nodes, order[k], x as int, mid, after),
            None => after == mid,
        },
    ensures
        cands_inv(rules, nodes, order, after),
{
    let ids = list_ids(nodes, order);
    if k > 0 && rules.contains_key((nodes[order[k - 1]].token, nodes[order[k]].token)) {
        lemma_recorded_cand(rules, nodes, order, k - 1);
    }
    if k + 1 < order.len() && rules.contains_key((nodes[order[k]].token, nodes[order[k + 1]].token)) {
        lemma_recorded_cand(rules, nodes, order, k);
    }
    assert(base.len() <= mid.len() <= after.len());
    assert forall|i: int| 0 <= i < mid.len() implies after[i] == mid[i] by {}
    assert forall|i: int| 0 <= i < base.len() implies mid[i] == base[i] by {}
    assert forall|i: int| 0 <= i < after.len() implies cand_sound(rules, nodes, #[trigger] after[i])
        && after[i].left_gen <= nodes[after[i].left].generation && after[i].right_gen
        <= nodes[after[i].right].generation by {
        if i < base.len() {
            assert(after[i] == base[i]);
            assert(cand_sound(rules, nodes, base[i]));
        } else if i < mid.len() {
            assert(after[i] == mid[i]);
        }
    }
    assert(has_merge_at(rules, ids, k - 1) ==> pair_covered(nodes, order, after, k - 1)) by {
        if has_merge_at(rules, ids, k - 1) {
            lemma_recorded_cand(rules, nodes, order, k - 1);
            assert(after[base.len() as int] == mid[base.len() as int]);
        }
    }
    assert(has_merge_at(rules, ids, k) ==> pair_covered(nodes, order, after, k)) by {
        if has_merge_at(rules, ids, k) {
            lemma_recorded_cand(rules, nodes, order, k);
            assert(after[mid.len() as int] == recorded_cand(rules, nodes, order[k], order[k + 1]));
        }
    }
    lemma_complete_after_push(rules, nodes, order, base, after, k);
}

/// Pieces shorter than two ids, and pieces under an empty table, are already
/// fully merged.
pub proof fn lemma_short_or_ruleless(rules: RuleMap, input: Seq<TokenId>)
    requires
        input.len() < 2 || rules.is_empty(),
    ensures
        canonical_encode(rules, input) == input,
{
    assert forall|p: int| !#[trigger] has_merge_at(rules, input, p) by {
        if has_merge_at(rules, input, p) {
            assert(rules.dom().contains((input[p], input[p + 1])));
        }
    }
    crate::bpe_semantics::lemma_canonical_done(rules, input);
}

/// `c` was popped from `cands`, leaving `rest`: it is a valid candidate of the
/// list that comes first among the valid ones, `rest` holds only candidates of
/// the list, and every other valid candidate stays in `rest`.
pub open spec fn popped_from(
    nodes: Seq<NodeView>,
    cands: Seq<CandView>,
    c: CandView,
    rest: Seq<CandView>,
) -> bool {
    &&& cand_valid(nodes, c)
    &&& cands.contains(c)
    &&& forall|t: int|
        0 <= t < cands.len() && cand_valid(nodes, #[trigger] cands[t]) ==> precedes_cand(
            c,
            cands[t],
        )
    &&& forall|i: int| 0 <= i < rest.len() ==> cands.contains(#[trigger] rest[i])
    &&& forall|t: int|
        0 <= t < cands.len() && cand_valid(nodes, #[trigger] cands[t]) && cands[t] != c
            ==> rest.contains(cands[t])
}

/// `Vec::swap_remove` keeps every other element and adds none.
pub proof fn lemma_swap_removed(cands: Seq<CandView>, b: int)
    requires
        0 <= b < cands.len(),
    ensures
        forall|i: int|
            0 <= i < cands.len() && i != b ==> swap_removed(cands, b).contains(#[trigger] cands[i]),
        forall|j: int|
            0 <= j < swap_removed(cands, b).len() ==> cands.contains(
                #[trigger] swap_removed(cands, b)[j],
            ),
{
    let rest = swap_removed(cands, b);
    assert forall|i: int| 0 <= i < cands.len() && i != b implies rest.contains(
        #[trigger] cands[i],
    ) by {
        if i == cands.len() - 1 {
            assert(rest[b] == cands[i]);
        } else {
            assert(rest[i] == cands[i]);
        }
    }
    assert forall|j: int| 0 <= j < rest.len() implies cands.contains(#[trigger] rest[j]) by {
        if j == b {
            assert(rest[j] == cands[cands.len() - 1]);
        } else {
            assert(rest[j] == cands[j]);
        }
    }
}

/// One step of the heap kernel: merging the pair of the popped candidate is
/// the canonical merge, and the candidates left behind keep their bookkeeping
/// for every pair the merge did not touch.
pub proof fn lemma_pop_step(
    rules: RuleMap,
    nodes: Seq<NodeView>,
    order: Seq<int>,
    cands: Seq<CandView>,
    c: CandView,
    rest: Seq<CandView>,
    bounded: bool,
) -> (k: int)
    requires
        list_wf(nodes, order),
        cands_in_range(nodes.len() as int, cands),
        popped_from(nodes, cands, c, rest),
        bounded ==> cands_inv(rules, nodes, order, cands),
    ensures
        0 <= k < order.len() - 1,
        order[k] == c.left,
        order[k + 1] == c.right,
        list_wf(merged_nodes(nodes, order[k], order[k + 1], c.output), order.remove(k + 1)),
        merged_nodes(nodes, order[k], order[k + 1], c.output).len() == nodes.len(),
        order.remove(k + 1).len() == order.len() - 1,
        cands_in_range(nodes.len() as int, rest),
        bounded ==> ({
            let new_nodes = merged_nodes(nodes, order[k], order[k + 1], c.output);
            let new_order = order.remove(k + 1);
            &&& canonical_encode(rules, list_ids(new_nodes, new_order)) == canonical_encode(
                rules,
                list_ids(nodes, order),
            )
            &&& cands_sound(rules, new_nodes, rest)
            &&& cands_gen_le(new_nodes, rest)
            &&& gens_bounded(new_nodes, new_nodes.len() - new_order.len())
            &&& forall|m: int|
                m != k - 1 && m != k && #[trigger] has_merge_at(
                    rules,
                    list_ids(new_nodes, new_order),
                    m,
                ) ==> pair_covered(new_nodes, new_order, rest, m)
        }),
{
    let k = lemma_valid_cand_position(nodes, order, c);
    let output = c.output;
    lemma_merge_step(nodes, order, k, output);
    assert forall|i: int| 0 <= i < rest.len() implies 0 <= (#[trigger] rest[i]).left
        < nodes.len() && 0 <= rest[i].right < nodes.len() by {
        let t = choose|t: int| 0 <= t < cands.len() && cands[t] == rest[i];
    }
    if bounded {
        let tc = choose|t: int| 0 <= t < cands.len() && cands[t] == c;
        assert(cand_sound(rules, nodes, cands[tc]));
        assert forall|i: int|
            0 <= i < cands.len() && cand_valid(nodes, #[trigger] cands[i]) implies precedes(
            c.rank as int,
            c.left,
            cands[i].rank as int,
            cands[i].left,
        ) by {
            assert(precedes_cand(c, cands[i]));
        }
        let k2 = lemma_least_valid_is_best(rules, nodes, order, cands, c);
        assert(k2 == k) by {
            if k2 < k {
                assert(order[k2] < order[k]);
            } else if k < k2 {
                assert(order[k] < order[k2]);
            }
        }
        lemma_canonical_step(rules, list_ids(nodes, order), k);
        assert forall|i: int| 0 <= i < rest.len() implies cand_sound(
            rules,
            nodes,
            #[trigger] rest[i],
        ) && rest[i].left_gen <= nodes[rest[i].left].generation && rest[i].right_gen
            <= nodes[rest[i].right].generation by {
            let t = choose|t: int| 0 <= t < cands.len() && cands[t] == rest[i];
            assert(cand_sound(rules, nodes, cands[t]));
            assert(cands[t].left_gen <= nodes[cands[t].left].generation);
        }
        let ids = list_ids(nodes, order);
        assert forall|m: int| m != k && #[trigger] has_merge_at(rules, ids, m) implies pair_covered(
            nodes,
            order,
            rest,
            m,
        ) by {
            assert(pair_covered(nodes, order, cands, m));
            let t = choose|t: int|
                0 <= t < cands.len() && (#[trigger] cands[t]).left == order[m] && cand_valid(
                    nodes,
                    cands[t],
                );
            assert(order[m] != order[k]) by {
                if m < k {
                    assert(order[m] < order[k]);
                } else {
                    assert(order[k] < order[m]);
                }
            }
            assert(cands[t] != c);
            let i = choose|i: int| 0 <= i < rest.len() && rest[i] == cands[t];
            assert(rest[i].left == order[m]);
        }
        lemma_merge_bookkeeping(rules, nodes, order, rest, k, output);
    }
    k
}

} // verus!
