//! Indexed medium-piece BPE kernel for the ElasticTokenizer.
//!
//! `IndexedBpe` keeps the piece as an indexed linked list. Merge candidates
//! carry node generations so only adjacencies touched by a merge need to be
//! regenerated. Normal pieces use compact `u32` nodes and packed priorities;
//! a wide compatibility path preserves semantics for inputs outside that domain.

use std::sync::Arc;

use vstd::prelude::*;

use crate::bpe_semantics::{
    MergeTriple, RuleMap, TokenId, canonical_encode, first_repeated_pair, has_duplicate_pair,
    has_merge_at, is_least_duplicated_pair, lemma_first_repeated_pair, ordered_rule_map,
};
use crate::elastic_id::{
    COMPACT_INDEX_INACTIVE, COMPACT_INDEX_MAX, COMPACT_INDEX_NONE, PackedRule, PriorityKey,
    lemma_priority_key_order, try_compact_index,
};
use crate::elastic_linked::{
    CandView, NodeView, WideCandidate, WideNode, all_valid, cand_valid, cands_gen_le,
    cands_in_range, cands_inv, cands_sound, gens_bounded, initial_nodes, initial_order,
    is_least_cand, lemma_after_pushes, lemma_filter_valid, lemma_indexed_step, lemma_initial_list,
    lemma_no_candidate_done, lemma_recorded_cand, lemma_short_or_ruleless, least_wide_candidate,
    list_ids, list_wf, merge_wide_nodes, merged_nodes, opt_index, pair_covered, precedes_cand,
    pushed, recorded_cand, retain_valid_wide, swap_removed, wide_cands_view, wide_node_view, wide_nodes_view,
};
use crate::elastic_rule_table::{AdaptivePackedRuleTable, all_fit_compact, lemma_adaptive_keys_narrow};
use crate::elastic_tokenizer::{DuplicateMergeRule, WideRuleTable};

verus! {

#[derive(Clone, Copy, Debug, PartialEq, Eq)]
struct IndexedRule {
    output: TokenId,
    rank: usize,
}

#[derive(Clone)]
enum RuleTable {
    Compact(Arc<AdaptivePackedRuleTable>),
    Wide(WideRuleTable),
}

impl RuleTable {
    spec fn well_formed(&self) -> bool {
        match self {
            RuleTable::Compact(t) => t.well_formed(),
            RuleTable::Wide(_) => true,
        }
    }

    spec fn rules(&self) -> RuleMap {
        match self {
            RuleTable::Compact(t) => t.rules(),
            RuleTable::Wide(t) => t.rules(),
        }
    }

    fn from_ordered_merges(merges: &[MergeTriple]) -> (result: Result<Self, DuplicateMergeRule>)
        ensures
            match result {
                Ok(t) => !has_duplicate_pair(merges@) && t.well_formed() && t.rules()
                    == ordered_rule_map(merges@) && (t is Compact <==> all_fit_compact(merges@)),
                Err(e) => if all_fit_compact(merges@) {
                    is_least_duplicated_pair(merges@, (e.left, e.right))
                } else {
                    first_repeated_pair(merges@) == Some((e.left, e.right))
                },
            },
    {
        proof {
            lemma_first_repeated_pair(merges@);
        }
        match AdaptivePackedRuleTable::try_from_ordered_merges(merges)? {
            Some(rules) => Ok(RuleTable::Compact(Arc::new(rules))),
            None => {
                let ranked = WideRuleTable::from_ordered_merges(merges)?;
                Ok(RuleTable::Wide(ranked))
            },
        }
    }

    fn is_empty(&self) -> (b: bool)
        requires
            self.well_formed(),
        ensures
            b <==> self.rules().is_empty(),
    {
        match self {
            RuleTable::Compact(rules) => rules.is_empty(),
            RuleTable::Wide(rules) => rules.is_empty(),
        }
    }

    fn is_compact(&self) -> (b: bool)
        ensures
            b <==> self is Compact,
    {
        match self {
            RuleTable::Compact(_) => true,
            RuleTable::Wide(_) => false,
        }
    }

    fn get_compact(&self, left: u32, right: u32) -> (rule: Option<PackedRule>)
        requires
            self.well_formed(),
            self is Compact,
        ensures
            match rule {
                Some(r) => self.rules().contains_key((left as TokenId, right as TokenId))
                    && self.rules()[(left as TokenId, right as TokenId)] == (
                    r.spec_rank() as nat,
                    r.spec_output() as TokenId,
                ),
                None => !self.rules().contains_key((left as TokenId, right as TokenId)),
            },
    {
        match self {
            RuleTable::Compact(rules) => rules.get(left, right),
            RuleTable::Wide(_) => None,
        }
    }

    fn get(&self, left: TokenId, right: TokenId) -> (rule: Option<IndexedRule>)
        requires
            self.well_formed(),
        ensures
            match rule {
                Some(r) => self.rules().contains_key((left, right)) && self.rules()[(left, right)]
                    == (r.rank as nat, r.output),
                None => !self.rules().contains_key((left, right)),
            },
    {
        match self {
            RuleTable::Compact(rules) => {
                if left > u32::MAX as usize || right > u32::MAX as usize {
                    proof {
                        lemma_adaptive_keys_narrow(&**rules, left, right);
                    }
                    return None;
                }
                match rules.get(left as u32, right as u32) {
                    Some(rule) => Some(
                        IndexedRule { output: rule.output() as usize, rank: rule.rank() as usize },
                    ),
                    None => None,
                }
            },
            RuleTable::Wide(rules) => match rules.get(left, right) {
                Some((rank, output)) => Some(IndexedRule { output, rank }),
                None => None,
            },
        }
    }
}

/// One node of the compact linked list: four `u32` words.
#[derive(Clone, Copy, Debug, PartialEq, Eq)]
pub struct CompactNode {
    token: u32,
    prev: u32,
    next: u32,
    generation: u32,
}

impl CompactNode {
    fn is_active(self) -> (b: bool)
        ensures
            b <==> self.next != COMPACT_INDEX_INACTIVE,
    {
        self.next != COMPACT_INDEX_INACTIVE
    }
}

/// One merge candidate of the compact kernel.
#[derive(Clone, Copy, Debug, PartialEq, Eq)]
pub struct CompactCandidate {
    priority: PriorityKey,
    right: u32,
    left_generation: u32,
    right_generation: u32,
    output: u32,
}

spec fn compact_index(x: u32) -> Option<int> {
    if x == COMPACT_INDEX_NONE {
        None
    } else {
        Some(x as int)
    }
}

spec fn compact_node_view(n: CompactNode) -> NodeView {
    let active = n.next != COMPACT_INDEX_INACTIVE;
    NodeView {
        token: n.token as TokenId,
        prev: if active {
            compact_index(n.prev)
        } else {
            None
        },
        next: if active {
            compact_index(n.next)
        } else {
            None
        },
        generation: n.generation as int,
        active: active,
    }
}

spec fn compact_nodes_view(nodes: Seq<CompactNode>) -> Seq<NodeView> {
    nodes.map_values(|n: CompactNode| compact_node_view(n))
}

spec fn compact_cand_view(c: CompactCandidate) -> CandView {
    CandView {
        rank: c.priority.spec_rank() as nat,
        left: c.priority.spec_left_index() as int,
        right: c.right as int,
        left_gen: c.left_generation as int,
        right_gen: c.right_generation as int,
        output: c.output as TokenId,
    }
}

spec fn compact_cands_view(cands: Seq<CompactCandidate>) -> Seq<CandView> {
    cands.map_values(|c: CompactCandidate| compact_cand_view(c))
}

/// Rank-priority BPE kernel with indexed adjacency maintenance.
#[derive(Clone)]
pub struct IndexedBpe {
    merges: RuleTable,
}

impl IndexedBpe {
    /// The rule table is internally consistent.
    pub closed spec fn well_formed(&self) -> bool {
        self.merges.well_formed()
    }

    /// The kernel's abstract rules.
    pub closed spec fn rules(&self) -> RuleMap {
        self.merges.rules()
    }

    /// The kernel stores its rules as compact `u32` words.
    pub closed spec fn spec_is_compact(&self) -> bool {
        self.merges is Compact
    }

    /// Builds the kernel. Tables in the compact domain report their least
    /// duplicated pair; wide tables report the first repeated pair.
    pub fn from_ordered_merges(merges: &[MergeTriple]) -> (result: Result<Self, DuplicateMergeRule>)
        ensures
            match result {
                Ok(t) => !has_duplicate_pair(merges@) && t.well_formed() && t.rules()
                    == ordered_rule_map(merges@) && (t.spec_is_compact() <==> all_fit_compact(
                    merges@,
                )),
                Err(e) => if all_fit_compact(merges@) {
                    is_least_duplicated_pair(merges@, (e.left, e.right))
                } else {
                    first_repeated_pair(merges@) == Some((e.left, e.right))
                },
            },
    {
        Ok(IndexedBpe { merges: RuleTable::from_ordered_merges(merges)? })
    }

    /// Builds the kernel over a compact rule table shared with other kernels.
    pub fn from_shared_compact_rules(rules: Arc<AdaptivePackedRuleTable>) -> (t: Self)
        requires
            rules.well_formed(),
        ensures
            t.well_formed(),
            t.rules() == rules.rules(),
            t.spec_is_compact(),
    {
        IndexedBpe { merges: RuleTable::Compact(rules) }
    }

    /// Whether normal rule tables use the compact word storage.
    pub fn is_compact(&self) -> (b: bool)
        ensures
            b <==> self.spec_is_compact(),
    {
        self.merges.is_compact()
    }

    /// Encodes one complete pre-tokenized piece.
    ///
    /// Compact execution is selected only when every input token and local node
    /// index fits its checked `u32` domain. Otherwise the wide path runs the
    /// entire piece; no chunking or partial compact execution occurs. The wide
    /// path's generation counters are `u32`, so its result is stated for
    /// pieces of at most `u32::MAX` ids.
    pub fn encode_ids(&self, input: &[TokenId]) -> (ids: Vec<TokenId>)
        requires
            self.well_formed(),
        ensures
            input.len() <= u32::MAX || self.can_encode_compact_spec(input@) ==> ids@
                == canonical_encode(self.rules(), input@),
    {
        if input.len() < 2 || self.merges.is_empty() {
            proof {
                lemma_short_or_ruleless(self.rules(), input@);
            }
            return vstd::slice::slice_to_vec(input);
        }
        if self.can_encode_compact(input) {
            self.encode_ids_compact(input)
        } else {
            self.encode_ids_wide(input)
        }
    }

    /// The compact path applies: compact rules, and every node index and
    /// token id of the piece fits its `u32` domain.
    pub open spec fn can_encode_compact_spec(&self, input: Seq<TokenId>) -> bool {
        &&& self.spec_is_compact()
        &&& input.len() >= 1
        &&& input.len() - 1 <= COMPACT_INDEX_MAX
        &&& forall|i: int| 0 <= i < input.len() ==> input[i] <= u32::MAX
    }

    /// Whether [`IndexedBpe::encode_ids`] takes the compact path for `input`.
    pub fn can_encode_compact(&self, input: &[TokenId]) -> (b: bool)
        requires
            input.len() >= 1,
        ensures
            b <==> self.can_encode_compact_spec(input@),
    {
        if !self.merges.is_compact() {
            return false;
        }
        if try_compact_index(input.len() - 1).is_err() {
            return false;
        }
        let mut i: usize = 0;
        while i < input.len()
            invariant
                0 <= i <= input.len(),
                forall|j: int| 0 <= j < i ==> input@[j] <= u32::MAX,
            decreases input.len() - i,
        {
            if input[i] > u32::MAX as usize {
                return false;
            }
            i = i + 1;
        }
        true
    }
    fn push_compact_candidate(
        &self,
        nodes: &Vec<CompactNode>,
        left: u32,
        right: u32,
        candidates: &mut Vec<CompactCandidate>,
    )
        requires
            self.well_formed(),
            self.spec_is_compact(),
            (left as int) < nodes.len(),
            (right as int) < nodes.len(),
        ensures
            pushed(
                self.rules(),
                compact_nodes_view(nodes@),
                left as int,
                right as int,
                compact_cands_view(old(candidates)@),
                compact_cands_view(final(candidates)@),
            ),
    {
        let ghost nv = compact_nodes_view(nodes@);
        let left_index = left as usize;
        let right_index = right as usize;
        assert(nv[left as int].token == nodes@[left as int].token as TokenId);
        assert(nv[right as int].token == nodes@[right as int].token as TokenId);
        match self.merges.get_compact(nodes[left_index].token, nodes[right_index].token) {
            Some(rule) => {
                let c = CompactCandidate {
                    priority: PriorityKey::new(rule.rank(), left),
                    right,
                    left_generation: nodes[left_index].generation,
                    right_generation: nodes[right_index].generation,
                    output: rule.output(),
                };
                candidates.push(c);
                assert(compact_cands_view(candidates@) =~= compact_cands_view(
                    old(candidates)@,
                ).push(recorded_cand(self.rules(), nv, left as int, right as int)));
            },
            None => {},
        }
    }

    fn compact_candidate_is_valid(nodes: &Vec<CompactNode>, candidate: CompactCandidate) -> (b:
        bool)
        requires
            nodes.len() <= COMPACT_INDEX_MAX + 1,
        ensures
            b <==> cand_valid(compact_nodes_view(nodes@), compact_cand_view(candidate)),
    {
        let left = candidate.priority.left_index();
        let left_index = left as usize;
        let right_index = candidate.right as usize;
        if left_index >= nodes.len() || right_index >= nodes.len() {
            return false;
        }
        let left_node = nodes[left_index];
        let right_node = nodes[right_index];
        left_node.is_active() && right_node.is_active() && left_node.next == candidate.right
            && right_node.prev == left && left_node.generation == candidate.left_generation
            && right_node.generation == candidate.right_generation
    }

    fn retain_valid_compact(nodes: &Vec<CompactNode>, candidates: &Vec<CompactCandidate>) -> (kept:
        Vec<CompactCandidate>)
        requires
            nodes.len() <= COMPACT_INDEX_MAX + 1,
        ensures
            all_valid(compact_nodes_view(nodes@), compact_cands_view(kept@)),
            forall|t: int|
                0 <= t < candidates.len() && cand_valid(
                    compact_nodes_view(nodes@),
                    #[trigger] compact_cands_view(candidates@)[t],
                ) ==> compact_cands_view(kept@).contains(compact_cands_view(candidates@)[t]),
            forall|i: int|
                0 <= i < kept.len() ==> compact_cands_view(candidates@).contains(
                    #[trigger] compact_cands_view(kept@)[i],
                ),
    {
        let ghost nv = compact_nodes_view(nodes@);
        let ghost cv = compact_cands_view(candidates@);
        let mut kept: Vec<CompactCandidate> = Vec::new();
        let mut j: usize = 0;
        while j < candidates.len()
            invariant
                nodes.len() <= COMPACT_INDEX_MAX + 1,
                nv == compact_nodes_view(nodes@),
                cv == compact_cands_view(candidates@),
                j <= candidates.len(),
                all_valid(nv, compact_cands_view(kept@)),
                forall|t: int|
                    0 <= t < j && cand_valid(nv, #[trigger] cv[t]) ==> compact_cands_view(
                        kept@,
                    ).contains(cv[t]),
                forall|i: int|
                    0 <= i < kept.len() ==> cv.contains(#[trigger] compact_cands_view(kept@)[i]),
            decreases candidates.len() - j,
        {
            let c = candidates[j];
            if Self::compact_candidate_is_valid(nodes, c) {
                let ghost kb = compact_cands_view(kept@);
                kept.push(c);
                proof {
                    let ka = compact_cands_view(kept@);
                    assert(ka =~= kb.push(cv[j as int]));
                    assert forall|t: int|
                        0 <= t < j + 1 && cand_valid(nv, #[trigger] cv[t]) implies ka.contains(
                        cv[t],
                    ) by {
                        if t < j {
                            let i = choose|i: int| 0 <= i < kb.len() && kb[i] == cv[t];
                            assert(ka[i] == kb[i]);
                        } else {
                            assert(ka[kb.len() as int] == cv[t]);
                        }
                    }
                    assert forall|i: int| 0 <= i < ka.len() implies cv.contains(#[trigger] ka[i]) by {
                        if i < kb.len() {
                            assert(ka[i] == kb[i]);
                        } else {
                            assert(cv[j as int] == ka[i]);
                        }
                    }
                }
            }
            j = j + 1;
        }
        kept
    }

    fn least_compact_candidate(kept: &Vec<CompactCandidate>) -> (best: usize)
        requires
            kept.len() > 0,
        ensures
            is_least_cand(compact_cands_view(kept@), best as int),
    {
        let ghost kv = compact_cands_view(kept@);
        let mut best: usize = 0;
        let mut j: usize = 1;
        while j < kept.len()
            invariant
                kv == compact_cands_view(kept@),
                best < kept.len(),
                1 <= j <= kept.len(),
                forall|i: int| 0 <= i < j ==> precedes_cand(kv[best as int], #[trigger] kv[i]),
            decreases kept.len() - j,
        {
            let c = kept[j];
            let b = kept[best];
            proof {
                lemma_priority_key_order(c.priority, b.priority);
            }
            if c.priority.raw() < b.priority.raw() {
                best = j;
            }
            j = j + 1;
        }
        best
    }

    fn merge_compact_nodes(nodes: &mut Vec<CompactNode>, left: u32, right: u32, output: u32) -> (links:
        (u32, u32))
        requires
            old(nodes).len() <= COMPACT_INDEX_MAX + 1,
            (left as int) < old(nodes).len(),
            (right as int) < old(nodes).len(),
            left != right,
            old(nodes)@[left as int].next != COMPACT_INDEX_INACTIVE,
            old(nodes)@[right as int].next != COMPACT_INDEX_INACTIVE,
            old(nodes)@[right as int].next != COMPACT_INDEX_NONE ==> {
                let x = old(nodes)@[right as int].next;
                &&& (x as int) < old(nodes).len()
                &&& x != left
                &&& x != right
                &&& old(nodes)@[x as int].next != COMPACT_INDEX_INACTIVE
            },
        ensures
            compact_nodes_view(final(nodes)@) == merged_nodes(
                compact_nodes_view(old(nodes)@),
                left as int,
                right as int,
                output as TokenId,
            ),
            final(nodes).len() == old(nodes).len(),
            links.0 == old(nodes)@[left as int].prev,
            links.1 == old(nodes)@[right as int].next,
    {
        let left_index = left as usize;
        let right_index = right as usize;
        let left_node = nodes[left_index];
        let right_node = nodes[right_index];
        let prev = left_node.prev;
        let next = right_node.next;
        nodes.set(
            left_index,
            CompactNode {
                token: output,
                prev: left_node.prev,
                next,
                generation: left_node.generation.wrapping_add(1),
            },
        );
        nodes.set(
            right_index,
            CompactNode {
                token: right_node.token,
                prev: COMPACT_INDEX_INACTIVE,
                next: COMPACT_INDEX_INACTIVE,
                generation: right_node.generation.wrapping_add(1),
            },
        );
        if next != COMPACT_INDEX_NONE {
            let next_index = next as usize;
            let next_node = nodes[next_index];
            nodes.set(
                next_index,
                CompactNode {
                    token: next_node.token,
                    prev: left,
                    next: next_node.next,
                    generation: next_node.generation,
                },
            );
        }
        proof {
            assert(compact_nodes_view(nodes@) =~= merged_nodes(
                compact_nodes_view(old(nodes)@),
                left as int,
                right as int,
                output as TokenId,
            ));
        }
        (prev, next)
    }

    #[verifier::rlimit(100)]
    fn encode_ids_compact(&self, input: &[TokenId]) -> (ids: Vec<TokenId>)
        requires
            self.well_formed(),
            input.len() >= 2,
            self.can_encode_compact_spec(input@),
        ensures
            ids@ == canonical_encode(self.rules(), input@),
    {
        let n = input.len();
        let ghost rules = self.rules();
        let mut nodes: Vec<CompactNode> = Vec::with_capacity(n);
        let mut index: usize = 0;
        while index < n
            invariant
                n == input.len(),
                n - 1 <= COMPACT_INDEX_MAX,
                forall|i: int| 0 <= i < n ==> input@[i] <= u32::MAX,
                index <= n,
                nodes.len() == index,
                forall|i: int|
                    0 <= i < index ==> compact_node_view(#[trigger] nodes@[i]) == initial_nodes(
                        input@,
                    )[i],
            decreases n - index,
        {
            let compact = index as u32;
            let prev = if index == 0 {
                COMPACT_INDEX_NONE
            } else {
                compact - 1
            };
            let next = if index + 1 < n {
                compact + 1
            } else {
                COMPACT_INDEX_NONE
            };
            nodes.push(
                CompactNode { token: input[index] as u32, prev, next, generation: 0 },
            );
            index = index + 1;
        }
        let ghost mut order = initial_order(n as int);
        proof {
            assert(compact_nodes_view(nodes@) =~= initial_nodes(input@));
            lemma_initial_list(input@);
        }
        let mut candidates: Vec<CompactCandidate> = Vec::with_capacity(n - 1);
        let mut left: usize = 0;
        while left < n - 1
            invariant
                n == input.len(),
                n >= 2,
                n - 1 <= COMPACT_INDEX_MAX,
                self.well_formed(),
                self.spec_is_compact(),
                rules == self.rules(),
                nodes.len() == n,
                left <= n - 1,
                list_wf(compact_nodes_view(nodes@), order),
                order == initial_order(n as int),
                list_ids(compact_nodes_view(nodes@), order) == input@,
                gens_bounded(compact_nodes_view(nodes@), 0),
                all_valid(compact_nodes_view(nodes@), compact_cands_view(candidates@)),
                cands_sound(rules, compact_nodes_view(nodes@), compact_cands_view(candidates@)),
                cands_gen_le(compact_nodes_view(nodes@), compact_cands_view(candidates@)),
                forall|m: int|
                    0 <= m < left && #[trigger] has_merge_at(rules, input@, m) ==> pair_covered(
                        compact_nodes_view(nodes@),
                        order,
                        compact_cands_view(candidates@),
                        m,
                    ),
            decreases n - 1 - left,
        {
            let ghost nv = compact_nodes_view(nodes@);
            let ghost before = compact_cands_view(candidates@);
            let compact = left as u32;
            self.push_compact_candidate(&nodes, compact, compact + 1, &mut candidates);
            proof {
                let after = compact_cands_view(candidates@);
                assert(order[left as int] == left && order[left + 1] == left + 1);
                if rules.contains_key((nv[left as int].token, nv[left + 1].token)) {
                    lemma_recorded_cand(rules, nv, order, left as int);
                    assert(after[before.len() as int] == recorded_cand(
                        rules,
                        nv,
                        left as int,
                        left + 1,
                    ));
                }
                assert forall|m: int|
                    0 <= m < left + 1 && #[trigger] has_merge_at(rules, input@, m) implies pair_covered(
                    nv,
                    order,
                    after,
                    m,
                ) by {
                    if m < left {
                        let i = choose|i: int|
                            0 <= i < before.len() && (#[trigger] before[i]).left == order[m]
                                && cand_valid(nv, before[i]);
                        assert(after[i] == before[i]);
                    } else {
                        lemma_recorded_cand(rules, nv, order, m);
                        assert(after[before.len() as int] == recorded_cand(
                            rules,
                            nv,
                            left as int,
                            left + 1,
                        ));
                    }
                }
            }
            left = left + 1;
        }
        proof {
            let nv = compact_nodes_view(nodes@);
            assert forall|m: int| #[trigger] has_merge_at(rules, list_ids(nv, order), m) implies pair_covered(
                nv,
                order,
                compact_cands_view(candidates@),
                m,
            ) by {
                assert(has_merge_at(rules, input@, m));
            }
        }
        loop
            invariant
                n == input.len(),
                n - 1 <= COMPACT_INDEX_MAX,
                self.well_formed(),
                self.spec_is_compact(),
                rules == self.rules(),
                nodes.len() == n,
                list_wf(compact_nodes_view(nodes@), order),
                cands_in_range(n as int, compact_cands_view(candidates@)),
                cands_inv(rules, compact_nodes_view(nodes@), order, compact_cands_view(candidates@)),
                canonical_encode(rules, list_ids(compact_nodes_view(nodes@), order))
                    == canonical_encode(rules, input@),
            ensures
                n == input.len(),
                nodes.len() == n,
                n - 1 <= COMPACT_INDEX_MAX,
                list_wf(compact_nodes_view(nodes@), order),
                list_ids(compact_nodes_view(nodes@), order) == canonical_encode(rules, input@),
            decreases order.len(),
        {
            let ghost nv = compact_nodes_view(nodes@);
            let ghost cv = compact_cands_view(candidates@);
            let mut kept = Self::retain_valid_compact(&nodes, &candidates);
            let ghost kv = compact_cands_view(kept@);
            proof {
                lemma_filter_valid(rules, nv, order, cv, kv);
            }
            if kept.len() == 0 {
                proof {
                    lemma_no_candidate_done(rules, nv, order, kv);
                }
                candidates = kept;
                break ;
            }
            let best = Self::least_compact_candidate(&kept);
            let ghost k = lemma_indexed_step(rules, nv, order, kv, best as int, true);
            proof {
                assert(nv[order[k]].active && nv[order[k + 1]].active);
                if k + 2 < order.len() {
                    assert(nv[order[k + 2]].active);
                }
            }
            let candidate = kept.swap_remove(best);
            candidates = kept;
            proof {
                assert(compact_cands_view(candidates@) =~= swap_removed(kv, best as int));
            }
            let left = candidate.priority.left_index();
            let (prev, next) = Self::merge_compact_nodes(
                &mut nodes,
                left,
                candidate.right,
                candidate.output,
            );
            let ghost new_order = order.remove(k + 1);
            let ghost merged = merged_nodes(
                nv,
                left as int,
                candidate.right as int,
                candidate.output as TokenId,
            );
            proof {
                assert(compact_index(prev) == (if k > 0 {
                    Some(new_order[k - 1])
                } else {
                    None::<int>
                }));
                assert(compact_index(next) == (if k + 1 < new_order.len() {
                    Some(new_order[k + 1])
                } else {
                    None::<int>
                }));
                order = new_order;
            }
            let ghost base = compact_cands_view(candidates@);
            if prev != COMPACT_INDEX_NONE {
                self.push_compact_candidate(&nodes, prev, left, &mut candidates);
            }
            let ghost mid = compact_cands_view(candidates@);
            if next != COMPACT_INDEX_NONE {
                self.push_compact_candidate(&nodes, left, next, &mut candidates);
            }
            proof {
                let after = compact_cands_view(candidates@);
                assert forall|i: int| 0 <= i < mid.len() implies after[i] == mid[i] by {}
                assert forall|i: int| 0 <= i < base.len() implies mid[i] == base[i] by {}
                assert(cands_in_range(n as int, after)) by {
                    assert forall|i: int| 0 <= i < after.len() implies 0 <= (
                    #[trigger] after[i]).left < n && 0 <= after[i].right < n by {
                        if i < base.len() {
                            assert(after[i] == base[i]);
                        }
                    }
                }
                let p = if prev == COMPACT_INDEX_NONE { None::<usize> } else { Some(prev as usize) };
                let x = if next == COMPACT_INDEX_NONE { None::<usize> } else { Some(next as usize) };
                lemma_after_pushes(rules, merged, order, base, mid, after, k, p, x);
            }
        }
        let mut output: Vec<TokenId> = Vec::with_capacity(n);
        let mut current: u32 = 0;
        let ghost mut pos: int = 0;
        while current != COMPACT_INDEX_NONE
            invariant
                nodes.len() == n,
                n - 1 <= COMPACT_INDEX_MAX,
                list_wf(compact_nodes_view(nodes@), order),
                0 <= pos <= order.len(),
                current == (if pos < order.len() {
                    order[pos] as u32
                } else {
                    COMPACT_INDEX_NONE
                }),
                output@ == list_ids(compact_nodes_view(nodes@), order).take(pos),
            decreases order.len() - pos,
        {
            let index = current as usize;
            let ghost nv = compact_nodes_view(nodes@);
            assert(nv[order[pos]].active);
            output.push(nodes[index].token as usize);
            current = nodes[index].next;
            proof {
                assert(output@ =~= list_ids(nv, order).take(pos + 1));
                pos = pos + 1;
            }
        }
        proof {
            assert(output@ =~= list_ids(compact_nodes_view(nodes@), order));
        }
        output
    }

    fn push_wide_candidate(
        &self,
        nodes: &Vec<WideNode>,
        left: usize,
        right: usize,
        candidates: &mut Vec<WideCandidate>,
    )
        requires
            self.well_formed(),
            left < nodes.len(),
            right < nodes.len(),
        ensures
            pushed(
                self.rules(),
                wide_nodes_view(nodes@),
                left as int,
                right as int,
                wide_cands_view(old(candidates)@),
                wide_cands_view(final(candidates)@),
            ),
    {
        let ghost nv = wide_nodes_view(nodes@);
        assert(nv[left as int].token == nodes@[left as int].token);
        assert(nv[right as int].token == nodes@[right as int].token);
        match self.merges.get(nodes[left].token, nodes[right].token) {
            Some(rule) => {
                let c = WideCandidate {
                    rank: rule.rank,
                    left,
                    right,
                    left_generation: nodes[left].generation,
                    right_generation: nodes[right].generation,
                    output: rule.output,
                };
                candidates.push(c);
                assert(wide_cands_view(candidates@) =~= wide_cands_view(old(candidates)@).push(
                    recorded_cand(self.rules(), nv, left as int, right as int),
                ));
            },
            None => {},
        }
    }

    #[verifier::rlimit(100)]
    fn encode_ids_wide(&self, input: &[TokenId]) -> (ids: Vec<TokenId>)
        requires
            self.well_formed(),
            input.len() >= 2,
        ensures
            input.len() <= u32::MAX ==> ids@ == canonical_encode(self.rules(), input@),
    {
        let n = input.len();
        let ghost rules = self.rules();
        let ghost bounded = n <= u32::MAX;
        let mut nodes: Vec<WideNode> = Vec::with_capacity(n);
        let mut index: usize = 0;
        while index < n
            invariant
                n == input.len(),
                index <= n,
                nodes.len() == index,
                forall|i: int|
                    0 <= i < index ==> wide_node_view(#[trigger] nodes@[i]) == initial_nodes(
                        input@,
                    )[i],
            decreases n - index,
        {
            let prev = if index == 0 {
                None
            } else {
                Some(index - 1)
            };
            let next = if index + 1 < n {
                Some(index + 1)
            } else {
                None
            };
            nodes.push(WideNode { token: input[index], prev, next, generation: 0, active: true });
            index = index + 1;
        }
        let ghost mut order = initial_order(n as int);
        proof {
            assert(wide_nodes_view(nodes@) =~= initial_nodes(input@));
            lemma_initial_list(input@);
        }
        let mut candidates: Vec<WideCandidate> = Vec::with_capacity(n - 1);
        let mut left: usize = 0;
        while left < n - 1
            invariant
                n == input.len(),
                n >= 2,
                self.well_formed(),
                rules == self.rules(),
                bounded == (n <= u32::MAX),
                nodes.len() == n,
                left <= n - 1,
                list_wf(wide_nodes_view(nodes@), order),
                order == initial_order(n as int),
                list_ids(wide_nodes_view(nodes@), order) == input@,
                gens_bounded(wide_nodes_view(nodes@), 0),
                all_valid(wide_nodes_view(nodes@), wide_cands_view(candidates@)),
                cands_sound(rules, wide_nodes_view(nodes@), wide_cands_view(candidates@)),
                cands_gen_le(wide_nodes_view(nodes@), wide_cands_view(candidates@)),
                forall|m: int|
                    0 <= m < left && #[trigger] has_merge_at(rules, input@, m) ==> pair_covered(
                        wide_nodes_view(nodes@),
                        order,
                        wide_cands_view(candidates@),
                        m,
                    ),
            decreases n - 1 - left,
        {
            let ghost nv = wide_nodes_view(nodes@);
            let ghost before = wide_cands_view(candidates@);
            self.push_wide_candidate(&nodes, left, left + 1, &mut candidates);
            proof {
                let after = wide_cands_view(candidates@);
                assert(order[left as int] == left && order[left + 1] == left + 1);
                if rules.contains_key((nv[left as int].token, nv[left + 1].token)) {
                    lemma_recorded_cand(rules, nv, order, left as int);
                    assert(after[before.len() as int] == recorded_cand(
                        rules,
                        nv,
                        left as int,
                        left + 1,
                    ));
                }
                assert forall|m: int|
                    0 <= m < left + 1 && #[trigger] has_merge_at(rules, input@, m) implies pair_covered(
                    nv,
                    order,
                    after,
                    m,
                ) by {
                    if m < left {
                        let i = choose|i: int|
                            0 <= i < before.len() && (#[trigger] before[i]).left == order[m]
                                && cand_valid(nv, before[i]);
                        assert(after[i] == before[i]);
                    } else {
                        lemma_recorded_cand(rules, nv, order, m);
                        assert(after[before.len() as int] == recorded_cand(
                            rules,
                            nv,
                            left as int,
                            left + 1,
                        ));
                    }
                }
            }
            left = left + 1;
        }
        proof {
            let nv = wide_nodes_view(nodes@);
            assert forall|m: int| #[trigger] has_merge_at(rules, list_ids(nv, order), m) implies pair_covered(
                nv,
                order,
                wide_cands_view(candidates@),
                m,
            ) by {
                assert(has_merge_at(rules, input@, m));
            }
        }
        loop
            invariant
                n == input.len(),
                self.well_formed(),
                rules == self.rules(),
                bounded == (n <= u32::MAX),
                nodes.len() == n,
                list_wf(wide_nodes_view(nodes@), order),
                cands_in_range(n as int, wide_cands_view(candidates@)),
                bounded ==> cands_inv(
                    rules,
                    wide_nodes_view(nodes@),
                    order,
                    wide_cands_view(candidates@),
                ),
                bounded ==> canonical_encode(rules, list_ids(wide_nodes_view(nodes@), order))
                    == canonical_encode(rules, input@),
            ensures
                n == input.len(),
                nodes.len() == n,
                list_wf(wide_nodes_view(nodes@), order),
                bounded ==> list_ids(wide_nodes_view(nodes@), order) == canonical_encode(
                    rules,
                    input@,
                ),
            decreases order.len(),
        {
            let ghost nv = wide_nodes_view(nodes@);
            let ghost cv = wide_cands_view(candidates@);
            let mut kept = retain_valid_wide(&nodes, &candidates);
            let ghost kv = wide_cands_view(kept@);
            proof {
                if bounded {
                    lemma_filter_valid(rules, nv, order, cv, kv);
                }
            }
            if kept.len() == 0 {
                proof {
                    if bounded {
                        lemma_no_candidate_done(rules, nv, order, kv);
                    }
                }
                candidates = kept;
                break ;
            }
            let best = least_wide_candidate(&kept);
            let ghost k = lemma_indexed_step(rules, nv, order, kv, best as int, bounded);
            proof {
                assert(nv[order[k]].active && nv[order[k + 1]].active);
                if k + 2 < order.len() {
                    assert(nv[order[k + 2]].active);
                }
            }
            let candidate = kept.swap_remove(best);
            candidates = kept;
            proof {
                assert(wide_cands_view(candidates@) =~= swap_removed(kv, best as int));
            }
            let left = candidate.left;
            let (prev, next) = merge_wide_nodes(
                &mut nodes,
                left,
                candidate.right,
                candidate.output,
            );
            let ghost new_order = order.remove(k + 1);
            let ghost merged = merged_nodes(nv, left as int, candidate.right as int, candidate.output);
            proof {
                assert(opt_index(prev) == (if k > 0 {
                    Some(new_order[k - 1])
                } else {
                    None::<int>
                }));
                assert(opt_index(next) == (if k + 1 < new_order.len() {
                    Some(new_order[k + 1])
                } else {
                    None::<int>
                }));
                order = new_order;
            }
            let ghost base = wide_cands_view(candidates@);
            if let Some(prev_index) = prev {
                self.push_wide_candidate(&nodes, prev_index, left, &mut candidates);
            }
            let ghost mid = wide_cands_view(candidates@);
            if let Some(next_index) = next {
                self.push_wide_candidate(&nodes, left, next_index, &mut candidates);
            }
            proof {
                let after = wide_cands_view(candidates@);
                assert forall|i: int| 0 <= i < mid.len() implies after[i] == mid[i] by {}
                assert forall|i: int| 0 <= i < base.len() implies mid[i] == base[i] by {}
                assert(cands_in_range(n as int, after)) by {
                    assert forall|i: int| 0 <= i < after.len() implies 0 <= (
                    #[trigger] after[i]).left < n && 0 <= after[i].right < n by {
                        if i < base.len() {
                            assert(after[i] == base[i]);
                        }
                    }
                }
                if bounded {
                    lemma_after_pushes(rules, merged, order, base, mid, after, k, prev, next);
                }
            }
        }
        let mut output: Vec<TokenId> = Vec::with_capacity(n);
        let mut current: Option<usize> = Some(0);
        let ghost mut pos: int = 0;
        while current.is_some()
            invariant
                nodes.len() == n,
                list_wf(wide_nodes_view(nodes@), order),
                0 <= pos <= order.len(),
                current == (if pos < order.len() {
                    Some(order[pos] as usize)
                } else {
                    None::<usize>
                }),
                output@ == list_ids(wide_nodes_view(nodes@), order).take(pos),
            decreases order.len() - pos,
        {
            let index = current.unwrap();
            let ghost nv = wide_nodes_view(nodes@);
            assert(nv[order[pos]].active);
            if nodes[index].active {
                output.push(nodes[index].token);
            }
            current = nodes[index].next;
            proof {
                assert(output@ =~= list_ids(nv, order).take(pos + 1));
                pos = pos + 1;
            }
        }
        proof {
            assert(output@ =~= list_ids(wide_nodes_view(nodes@), order));
        }
        output
    }

}

} // verus!
