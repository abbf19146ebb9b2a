//! Small-piece BPE kernel for the ElasticTokenizer.
//!
//! `TinyScanBpe` uses a fixed stack work buffer and the same global rank
//! priority rule as `CanonicalBpeOracle`. It never chunks an oversized piece:
//! callers receive `None` and must route the complete piece to another kernel.

use vstd::prelude::*;

use crate::bpe_semantics::{
    MergeTriple, RuleMap, TokenId, canonical_encode, first_repeated_pair, has_duplicate_pair,
    has_merge_at, is_best_merge, is_fully_merged, is_least_duplicated_pair,
    lemma_canonical_done, lemma_canonical_step, lemma_first_repeated_pair, ordered_rule_map,
    output_at, precedes, rank_at, apply_merge_at,
};
use crate::elastic_id::{PriorityKey, lemma_priority_key_order};
use crate::elastic_rule_table::{FlatPackedRuleTable, all_fit_compact};
use crate::elastic_tokenizer::{DuplicateMergeRule, WideRuleTable};

verus! {

/// Maximum number of input ids handled by the stack-only tiny work buffer.
///
/// This is an implementation capacity, not a semantic BPE boundary.
pub const TINY_SCAN_CAPACITY: usize = 128;

/// The token ids held in the first `len` slots of a compact work buffer.
pub open spec fn compact_work_ids(work: Seq<u32>, len: int) -> Seq<TokenId> {
    Seq::new(len as nat, |i: int| work[i] as TokenId)
}

#[derive(Clone, Debug)]
enum RuleTable {
    Compact(FlatPackedRuleTable),
    Wide(WideRuleTable),
}

/// Rank-priority BPE kernel specialized for small pieces.
#[derive(Clone, Debug)]
pub struct TinyScanBpe {
    merges: RuleTable,
}

impl TinyScanBpe {
    /// The rule table is internally consistent.
    pub closed spec fn well_formed(&self) -> bool {
        match self.merges {
            RuleTable::Compact(t) => t.well_formed(),
            RuleTable::Wide(_) => true,
        }
    }

    /// The kernel's abstract rules.
    pub closed spec fn rules(&self) -> RuleMap {
        match self.merges {
            RuleTable::Compact(t) => t.rules(),
            RuleTable::Wide(t) => t.rules(),
        }
    }

    /// The kernel stores its rules as compact `u32` words.
    pub closed spec fn spec_is_compact(&self) -> bool {
        self.merges is Compact
    }

    /// Builds the kernel. Tables in the compact domain report their least
    /// duplicated pair; wide tables report the first repeated pair.
    pub fn from_ordered_merges(merges: &[MergeTriple]) -> (result: Result<Self, DuplicateMergeRule>)
        ensures
            match result {
                Ok(t) => !has_duplicate_pair(merges@) && t.well_formed() && t.rules()
                    == ordered_rule_map(merges@) && (t.spec_is_compact() <==> all_fit_compact(
                    merges@,
                )),
                Err(e) => if all_fit_compact(merges@) {
                    is_least_duplicated_pair(merges@, (e.left, e.right))
                } else {
                    first_repeated_pair(merges@) == Some((e.left, e.right))
                },
            },
    {
        proof {
            lemma_first_repeated_pair(merges@);
        }
        match FlatPackedRuleTable::try_from_ordered_merges(merges)? {
            Some(ranked) => Ok(TinyScanBpe { merges: RuleTable::Compact(ranked) }),
            None => {
                let ranked = WideRuleTable::from_ordered_merges(merges)?;
                Ok(TinyScanBpe { merges: RuleTable::Wide(ranked) })
            },
        }
    }

    /// Whether normal rule tables use the flat compact storage.
    pub fn is_compact(&self) -> (b: bool)
        ensures
            b <==> self.spec_is_compact(),
    {
        match self.merges {
            RuleTable::Compact(_) => true,
            RuleTable::Wide(_) => false,
        }
    }

    /// Encodes a complete piece when it fits the tiny work buffer; `None` for
    /// a piece longer than [`TINY_SCAN_CAPACITY`]. The piece is never split.
    pub fn try_encode_ids(&self, input: &[TokenId]) -> (result: Option<Vec<TokenId>>)
        requires
            self.well_formed(),
        ensures
            match result {
                Some(ids) => input.len() <= TINY_SCAN_CAPACITY && ids@ == canonical_encode(
                    self.rules(),
                    input@,
                ),
                None => input.len() > TINY_SCAN_CAPACITY,
            },
    {
        if input.len() > TINY_SCAN_CAPACITY {
            return None;
        }
        match &self.merges {
            RuleTable::Compact(table) => {
                let mut all_compact = true;
                let mut i: usize = 0;
                while i < input.len()
                    invariant
                        0 <= i <= input.len(),
                        all_compact <==> forall|k: int| 0 <= k < i ==> input@[k] <= u32::MAX,
                    decreases input.len() - i,
                {
                    if input[i] > u32::MAX as usize {
                        all_compact = false;
                    }
                    i = i + 1;
                }
                if all_compact {
                    Some(Self::encode_compact(table, input))
                } else {
                    Some(Self::encode_wide(&self.merges, input))
                }
            },
            RuleTable::Wide(_) => Some(Self::encode_wide(&self.merges, input)),
        }
    }

    fn rule_for(merges: &RuleTable, left: TokenId, right: TokenId) -> (rule: Option<(usize, TokenId)>)
        requires
            match merges {
                RuleTable::Compact(t) => t.well_formed(),
                RuleTable::Wide(_) => true,
            },
        ensures
            ({
                let rules = match merges {
                    RuleTable::Compact(t) => t.rules(),
                    RuleTable::Wide(t) => t.rules(),
                };
                match rule {
                    Some((rank, output)) => rules.contains_key((left, right)) && rules[(left, right)]
                        == (rank as nat, output),
                    None => !rules.contains_key((left, right)),
                }
            }),
    {
        match merges {
            RuleTable::Compact(t) => {
                if left > u32::MAX as usize || right > u32::MAX as usize {
                    proof {
                        crate::elastic_tiny::lemma_compact_keys_narrow(t, left, right);
                    }
                    return None;
                }
                match t.get(left as u32, right as u32) {
                    Some(rule) => Some((rule.rank() as usize, rule.output() as usize)),
                    None => None,
                }
            },
            RuleTable::Wide(t) => t.get(left, right),
        }
    }

    fn encode_compact(table: &FlatPackedRuleTable, input: &[TokenId]) -> (ids: Vec<TokenId>)
        requires
            table.well_formed(),
            input.len() <= TINY_SCAN_CAPACITY,
            forall|k: int| 0 <= k < input.len() ==> input@[k] <= u32::MAX,
        ensures
            ids@ == canonical_encode(table.rules(), input@),
    {
        let ghost rules = table.rules();
        let mut work = [0u32; 128];
        let mut k: usize = 0;
        while k < input.len()
            invariant
                0 <= k <= input.len() <= 128,
                forall|j: int| 0 <= j < input.len() ==> input@[j] <= u32::MAX,
                forall|j: int| 0 <= j < k ==> work@[j] as TokenId == input@[j],
            decreases input.len() - k,
        {
            work[k] = input[k] as u32;
            k = k + 1;
        }
        let mut len = input.len();
        assert(compact_work_ids(work@, len as int) =~= input@);
        let mut done = false;
        while !done && len >= 2
            invariant
                rules == table.rules(),
                table.well_formed(),
                2 <= len + 2,
                len <= 128,
                canonical_encode(rules, compact_work_ids(work@, len as int)) == canonical_encode(
                    rules,
                    input@,
                ),
                done ==> is_fully_merged(rules, compact_work_ids(work@, len as int)),
            decreases len + (if done { 0int } else { 1int }),
        {
            let ghost ids = compact_work_ids(work@, len as int);
            let mut best: Option<(PriorityKey, u32)> = None;
            let mut position: usize = 0;
            while position < len - 1
                invariant
                    rules == table.rules(),
                    table.well_formed(),
                    2 <= len <= 128,
                    ids == compact_work_ids(work@, len as int),
                    0 <= position <= len - 1,
                    match best {
                        None => forall|q: int|
                            0 <= q < position ==> !#[trigger] has_merge_at(rules, ids, q),
                        Some((key, output)) => {
                            &&& key.spec_left_index() < position
                            &&& has_merge_at(rules, ids, key.spec_left_index() as int)
                            &&& rank_at(rules, ids, key.spec_left_index() as int) == key.spec_rank()
                            &&& output_at(rules, ids, key.spec_left_index() as int) == output
                            &&& forall|q: int|
                                0 <= q < position && #[trigger] has_merge_at(rules, ids, q)
                                    ==> precedes(
                                    key.spec_rank() as int,
                                    key.spec_left_index() as int,
                                    rank_at(rules, ids, q) as int,
                                    q,
                                )
                        },
                    },
                decreases len - 1 - position,
            {
                match table.get(work[position], work[position + 1]) {
                    Some(rule) => {
                        let candidate = PriorityKey::new(rule.rank(), position as u32);
                        let better = match best {
                            None => true,
                            Some((current, _)) => {
                                proof {
                                    lemma_priority_key_order(candidate, current);
                                }
                                candidate.raw() < current.raw()
                            },
                        };
                        if better {
                            best = Some((candidate, rule.output()));
                        }
                    },
                    None => {},
                }
                position = position + 1;
            }
            match best {
                None => {
                    done = true;
                },
                Some((priority, output)) => {
                    let p = priority.left_index() as usize;
                    proof {
                        assert(is_best_merge(rules, ids, p as int));
                        lemma_canonical_step(rules, ids, p as int);
                    }
                    let ghost before = work@;
                    work[p] = output;
                    let mut m: usize = p + 1;
                    while m + 1 < len
                        invariant
                            p + 1 <= m <= len - 1,
                            len <= 128,
                            p + 1 < len,
                            work@.len() == 128,
                            before.len() == 128,
                            forall|j: int| 0 <= j < p ==> work@[j] == before[j],
                            work@[p as int] == output,
                            forall|j: int| m <= j < 128 ==> #[trigger] work@[j] == before[j],
                            forall|j: int| p + 1 <= j < m ==> #[trigger] work@[j] == before[j + 1],
                        decreases len - m,
                    {
                        work[m] = work[m + 1];
                        m = m + 1;
                    }
                    len = len - 1;
                    proof {
                        let merged = apply_merge_at(ids, p as int, output as TokenId);
                        assert(compact_work_ids(work@, len as int) =~= merged) by {
                            assert forall|j: int| 0 <= j < len implies #[trigger] compact_work_ids(
                                work@,
                                len as int,
                            )[j] == merged[j] by {
                                if j > p {
                                    assert(work@[j] == before[j + 1]);
                                }
                            }
                        }
                    }
                },
            }
        }
        proof {
            let ids = compact_work_ids(work@, len as int);
            assert forall|q: int| !#[trigger] has_merge_at(rules, ids, q) by {
                if len >= 2 {
                    assert(done);
                }
            }
            lemma_canonical_done(rules, ids);
        }
        let mut output: Vec<TokenId> = Vec::with_capacity(len);
        let mut i: usize = 0;
        while i < len
            invariant
                0 <= i <= len <= 128,
                output@ == compact_work_ids(work@, i as int),
            decreases len - i,
        {
            output.push(work[i] as usize);
            i = i + 1;
            assert(output@ =~= compact_work_ids(work@, i as int));
        }
        output
    }

    fn encode_wide(merges: &RuleTable, input: &[TokenId]) -> (ids: Vec<TokenId>)
        requires
            input.len() <= TINY_SCAN_CAPACITY,
            match merges {
                RuleTable::Compact(t) => t.well_formed(),
                RuleTable::Wide(_) => true,
            },
        ensures
            ids@ == canonical_encode(
                match merges {
                    RuleTable::Compact(t) => t.rules(),
                    RuleTable::Wide(t) => t.rules(),
                },
                input@,
            ),
    {
        let ghost rules = match merges {
            RuleTable::Compact(t) => t.rules(),
            RuleTable::Wide(t) => t.rules(),
        };
        let mut work = [0usize; 128];
        let mut k: usize = 0;
        while k < input.len()
            invariant
                0 <= k <= input.len() <= 128,
                forall|j: int| 0 <= j < k ==> work@[j] == input@[j],
            decreases input.len() - k,
        {
            work[k] = input[k];
            k = k + 1;
        }
        let mut len = input.len();
        assert(work@.take(len as int) =~= input@);
        let mut done = false;
        while !done && len >= 2
            invariant
                rules == (match merges {
                    RuleTable::Compact(t) => t.rules(),
                    RuleTable::Wide(t) => t.rules(),
                }),
                match merges {
                    RuleTable::Compact(t) => t.well_formed(),
                    RuleTable::Wide(_) => true,
                },
                len <= 128,
                canonical_encode(rules, work@.take(len as int)) == canonical_encode(rules, input@),
                done ==> is_fully_merged(rules, work@.take(len as int)),
            decreases len + (if done { 0int } else { 1int }),
        {
            let ghost ids = work@.take(len as int);
            let mut best: Option<(usize, usize, TokenId)> = None;
            let mut position: usize = 0;
            while position < len - 1
                invariant
                    rules == (match merges {
                        RuleTable::Compact(t) => t.rules(),
                        RuleTable::Wide(t) => t.rules(),
                    }),
                    match merges {
                        RuleTable::Compact(t) => t.well_formed(),
                        RuleTable::Wide(_) => true,
                    },
                    2 <= len <= 128,
                    ids == work@.take(len as int),
                    0 <= position <= len - 1,
                    match best {
                        None => forall|q: int|
                            0 <= q < position ==> !#[trigger] has_merge_at(rules, ids, q),
                        Some((rank, p, output)) => {
                            &&& p < position
                            &&& has_merge_at(rules, ids, p as int)
                            &&& rank_at(rules, ids, p as int) == rank
                            &&& output_at(rules, ids, p as int) == output
                            &&& forall|q: int|
                                0 <= q < position && #[trigger] has_merge_at(rules, ids, q)
                                    ==> precedes(rank as int, p as int, rank_at(rules, ids, q) as int, q)
                        },
                    },
                decreases len - 1 - position,
            {
                match Self::rule_for(merges, work[position], work[position + 1]) {
                    Some((rank, output)) => {
                        let better = match best {
                            None => true,
                            Some((best_rank, best_position, _)) => rank < best_rank || (rank
                                == best_rank && position < best_position),
                        };
                        if better {
                            best = Some((rank, position, output));
                        }
                    },
                    None => {},
                }
                position = position + 1;
            }
            match best {
                None => {
                    done = true;
                },
                Some((_, p, output)) => {
                    proof {
                        assert(is_best_merge(rules, ids, p as int));
                        lemma_canonical_step(rules, ids, p as int);
                    }
                    let ghost before = work@;
                    work[p] = output;
                    let mut m: usize = p + 1;
                    while m + 1 < len
                        invariant
                            p + 1 <= m <= len - 1,
                            len <= 128,
                            p + 1 < len,
                            work@.len() == 128,
                            before.len() == 128,
                            forall|j: int| 0 <= j < p ==> work@[j] == before[j],
                            work@[p as int] == output,
                            forall|j: int| m <= j < 128 ==> #[trigger] work@[j] == before[j],
                            forall|j: int| p + 1 <= j < m ==> #[trigger] work@[j] == before[j + 1],
                        decreases len - m,
                    {
                        work[m] = work[m + 1];
                        m = m + 1;
                    }
                    len = len - 1;
                    proof {
                        let merged = apply_merge_at(ids, p as int, output);
                        assert(work@.take(len as int) =~= merged) by {
                            assert forall|j: int| 0 <= j < len implies #[trigger] work@.take(
                                len as int,
                            )[j] == merged[j] by {
                                if j > p {
                                    assert(work@[j] == before[j + 1]);
                                }
                            }
                        }
                    }
                },
            }
        }
        proof {
            let ids = work@.take(len as int);
            assert forall|q: int| !#[trigger] has_merge_at(rules, ids, q) by {
                if len >= 2 {
                    assert(done);
                }
            }
            lemma_canonical_done(rules, ids);
        }
        let mut output: Vec<TokenId> = Vec::with_capacity(len);
        let mut i: usize = 0;
        while i < len
            invariant
                0 <= i <= len <= 128,
                output@ == work@.take(i as int),
            decreases len - i,
        {
            output.push(work[i]);
            i = i + 1;
            assert(output@ =~= work@.take(i as int));
        }
        output
    }
}

/// Keys of a compact table are in the `u32` domain.
proof fn lemma_compact_keys_narrow(t: &FlatPackedRuleTable, left: TokenId, right: TokenId)
    requires
        t.well_formed(),
        left > u32::MAX || right > u32::MAX,
    ensures
        !t.rules().contains_key((left, right)),
{
    crate::elastic_rule_table::lemma_flat_keys_narrow(t, left, right);
}

} // verus!
