//! Semantic core for the SciAgent ElasticTokenizer.
//!
//! Routing may change *how* a BPE piece is encoded, but it must never change
//! *which token ids* are produced. Piece classes are execution classes only;
//! they are not artificial BPE chunk boundaries.
//!
//! [`CanonicalBpeOracle`] is the deliberately simple O(n²) rank-priority
//! reference. Every optimized kernel is stated against the same
//! [`canonical_encode`] semantics.

use std::collections::BTreeMap;

use vstd::prelude::*;

use crate::bpe_semantics::{
    MergeTriple, RuleMap, TokenId, canonical_encode, first_repeated_pair, has_merge_at,
    is_best_merge, is_fully_merged, lemma_canonical_done, lemma_canonical_step,
    lemma_first_repeated_prefix, lemma_rule_map_keys, ordered_rule_map, output_at, precedes,
    rank_at,
};

verus! {

/// Execution-size class selected by the elastic router.
#[derive(Clone, Copy, Debug, PartialEq, Eq, Structural)]
pub enum PieceClass {
    S,
    M,
    L,
    Xl,
    Xxl,
    Xxxl,
}

impl PieceClass {
    /// Position of the class in a profile's kernel array.
    pub open spec fn spec_index(self) -> usize {
        match self {
            PieceClass::S => 0,
            PieceClass::M => 1,
            PieceClass::L => 2,
            PieceClass::Xl => 3,
            PieceClass::Xxl => 4,
            PieceClass::Xxxl => 5,
        }
    }

    fn index(self) -> (i: usize)
        ensures
            i == self.spec_index(),
            i < 6,
    {
        match self {
            PieceClass::S => 0,
            PieceClass::M => 1,
            PieceClass::L => 2,
            PieceClass::Xl => 3,
            PieceClass::Xxl => 4,
            PieceClass::Xxxl => 5,
        }
    }
}

/// BPE execution kernel.
#[derive(Clone, Copy, Debug, PartialEq, Eq, Structural)]
pub enum BpeKernel {
    Reference,
    TinyScan,
    Indexed,
    Heap,
}

/// Monotonic byte-length boundaries for the six execution classes.
#[derive(Clone, Copy, Debug, PartialEq, Eq, Structural)]
pub struct ElasticThresholds {
    pub s_max: usize,
    pub m_max: usize,
    pub l_max: usize,
    pub xl_max: usize,
    pub xxl_max: usize,
}

/// Invalid elastic thresholds (they must be strictly increasing).
#[derive(Clone, Copy, Debug, PartialEq, Eq, Structural)]
pub struct ThresholdError;

impl ThresholdError {
    /// Human-readable description of the error.
    pub fn message(&self) -> (s: &'static str)
        ensures
            s@ == "elastic tokenizer thresholds must be strictly increasing"@,
    {
        "elastic tokenizer thresholds must be strictly increasing"
    }
}

impl ElasticThresholds {
    /// The five boundaries are strictly increasing.
    pub open spec fn is_strictly_increasing(s_max: usize, m_max: usize, l_max: usize, xl_max: usize, xxl_max: usize) -> bool {
        s_max < m_max && m_max < l_max && l_max < xl_max && xl_max < xxl_max
    }

    /// Class of a piece of `piece_len` bytes.
    pub open spec fn spec_classify(self, piece_len: usize) -> PieceClass {
        if piece_len <= self.s_max {
            PieceClass::S
        } else if piece_len <= self.m_max {
            PieceClass::M
        } else if piece_len <= self.l_max {
            PieceClass::L
        } else if piece_len <= self.xl_max {
            PieceClass::Xl
        } else if piece_len <= self.xxl_max {
            PieceClass::Xxl
        } else {
            PieceClass::Xxxl
        }
    }

    /// Creates validated monotonic thresholds.
    pub fn new(s_max: usize, m_max: usize, l_max: usize, xl_max: usize, xxl_max: usize) -> (result:
        Result<Self, ThresholdError>)
        ensures
            match result {
                Ok(t) => Self::is_strictly_increasing(s_max, m_max, l_max, xl_max, xxl_max)
                    && t == (ElasticThresholds { s_max, m_max, l_max, xl_max, xxl_max }),
                Err(_) => !Self::is_strictly_increasing(s_max, m_max, l_max, xl_max, xxl_max),
            },
    {
        if !(s_max < m_max && m_max < l_max && l_max < xl_max && xl_max < xxl_max) {
            return Err(ThresholdError);
        }
        Ok(ElasticThresholds { s_max, m_max, l_max, xl_max, xxl_max })
    }

    /// Classifies one complete BPE piece by byte length. Classification never
    /// splits the piece.
    pub fn classify(self, piece_len: usize) -> (class: PieceClass)
        ensures
            class == self.spec_classify(piece_len),
    {
        if piece_len <= self.s_max {
            PieceClass::S
        } else if piece_len <= self.m_max {
            PieceClass::M
        } else if piece_len <= self.l_max {
            PieceClass::L
        } else if piece_len <= self.xl_max {
            PieceClass::Xl
        } else if piece_len <= self.xxl_max {
            PieceClass::Xxl
        } else {
            PieceClass::Xxxl
        }
    }
}

/// Hardware-local execution profile. A profile is not part of tokenizer
/// semantics: two hosts with different profiles produce identical token ids.
#[derive(Clone, Copy, Debug, PartialEq, Eq)]
pub struct ElasticProfile {
    thresholds: ElasticThresholds,
    kernels: [BpeKernel; 6],
}

impl ElasticProfile {
    /// The profile's class boundaries.
    pub closed spec fn spec_thresholds(self) -> ElasticThresholds {
        self.thresholds
    }

    /// The profile's kernel per class, in class order.
    pub closed spec fn spec_kernels(self) -> Seq<BpeKernel> {
        self.kernels@
    }

    /// A profile names one kernel per class.
    pub proof fn lemma_kernels_len(self)
        ensures
            self.spec_kernels().len() == 6,
    {
    }

    /// Kernel requested for a piece of `piece_len` bytes.
    pub open spec fn spec_kernel_for(self, piece_len: usize) -> BpeKernel {
        self.spec_kernels()[self.spec_thresholds().spec_classify(piece_len).spec_index() as int]
    }

    pub fn new(thresholds: ElasticThresholds, kernels: [BpeKernel; 6]) -> (p: Self)
        ensures
            p.spec_thresholds() == thresholds,
            p.spec_kernels() == kernels@,
    {
        ElasticProfile { thresholds, kernels }
    }

    /// Safe bootstrap profile used before auto-calibration is available.
    pub fn reference_only(thresholds: ElasticThresholds) -> (p: Self)
        ensures
            p.spec_thresholds() == thresholds,
            p.spec_kernels() == seq![BpeKernel::Reference; 6],
    {
        let p = Self::new(thresholds, [BpeKernel::Reference; 6]);
        assert(p.spec_kernels() =~= seq![BpeKernel::Reference; 6]);
        p
    }

    pub fn class_for(self, piece_len: usize) -> (class: PieceClass)
        ensures
            class == self.spec_thresholds().spec_classify(piece_len),
    {
        self.thresholds.classify(piece_len)
    }

    pub fn kernel_for(self, piece_len: usize) -> (kernel: BpeKernel)
        ensures
            kernel == self.spec_kernel_for(piece_len),
    {
        let index = self.class_for(piece_len).index();
        self.kernels[index]
    }

    pub fn thresholds(self) -> (t: ElasticThresholds)
        ensures
            t == self.spec_thresholds(),
    {
        self.thresholds
    }

    pub fn kernels(self) -> (k: [BpeKernel; 6])
        ensures
            k@ == self.spec_kernels(),
    {
        self.kernels
    }
}

/// Rank and output of one merge rule.
#[derive(Clone, Copy, Debug, PartialEq, Eq, Structural)]
struct RankedMerge {
    output: TokenId,
    rank: usize,
}

/// Error returned when an ordered merge table assigns the same input pair more
/// than once. Such a table has ambiguous rank semantics and is rejected.
#[derive(Clone, Copy, Debug, PartialEq, Eq, Structural)]
pub struct DuplicateMergeRule {
    pub left: TokenId,
    pub right: TokenId,
}

/// Rule table keyed by full-width token ids, built in rank order.
#[derive(Clone, Debug)]
pub struct WideRuleTable {
    merges: BTreeMap<(TokenId, TokenId), RankedMerge>,
}

impl WideRuleTable {
    /// The table's abstract rules.
    pub closed spec fn rules(&self) -> RuleMap {
        self.merges@.map_values(|r: RankedMerge| (r.rank as nat, r.output))
    }

    /// Builds the table from merge rules ordered from highest to lowest
    /// priority. The first rule whose pair already occurred is reported.
    pub fn from_ordered_merges(merges: &[MergeTriple]) -> (result: Result<Self, DuplicateMergeRule>)
        ensures
            match result {
                Ok(table) => first_repeated_pair(merges@) is None && table.rules()
                    == ordered_rule_map(merges@),
                Err(e) => first_repeated_pair(merges@) == Some((e.left, e.right)),
            },
    {
        let mut ranked: BTreeMap<(TokenId, TokenId), RankedMerge> = BTreeMap::new();
        let mut rank: usize = 0;
        assert(merges@.take(0) =~= Seq::<MergeTriple>::empty());
        assert(ranked@.map_values(|r: RankedMerge| (r.rank as nat, r.output)) =~= Map::empty());
        while rank < merges.len()
            invariant
                0 <= rank <= merges.len(),
                first_repeated_pair(merges@.take(rank as int)) is None,
                ranked@.map_values(|r: RankedMerge| (r.rank as nat, r.output)) == ordered_rule_map(
                    merges@.take(rank as int),
                ),
            decreases merges.len() - rank,
        {
            let (left, right, output) = merges[rank];
            let ghost before = merges@.take(rank as int);
            let ghost after = merges@.take(rank + 1);
            assert(after.drop_last() =~= before);
            assert(after.last() == merges@[rank as int]);
            proof {
                lemma_rule_map_keys(before, (left, right));
            }
            let previous = ranked.insert((left, right), RankedMerge { output, rank });
            if previous.is_some() {
                proof {
                    lemma_first_repeated_prefix(merges@, rank + 1);
                }
                return Err(DuplicateMergeRule { left, right });
            }
            assert(ranked@.map_values(|r: RankedMerge| (r.rank as nat, r.output)) =~= ordered_rule_map(
                after,
            ));
            rank = rank + 1;
        }
        assert(merges@.take(merges.len() as int) =~= merges@);
        Ok(WideRuleTable { merges: ranked })
    }

    pub fn is_empty(&self) -> (b: bool)
        ensures
            b <==> self.rules().is_empty(),
    {
        let b = self.merges.is_empty();
        proof {
            if !b {
                let k = self.merges@.dom().choose();
                assert(self.rules().contains_key(k));
            }
        }
        b
    }

    /// Rank and output of the rule for one adjacent pair, if any.
    pub fn get(&self, left: TokenId, right: TokenId) -> (rule: Option<(usize, TokenId)>)
        ensures
            match rule {
                Some((rank, output)) => self.rules().contains_key((left, right))
                    && self.rules()[(left, right)] == (rank as nat, output),
                None => !self.rules().contains_key((left, right)),
            },
    {
        match self.merges.get(&(left, right)) {
            Some(r) => Some((r.rank, r.output)),
            None => None,
        }
    }
}

/// Canonical rank-priority BPE oracle over an already pre-tokenized piece.
///
/// On each iteration the globally lowest-rank adjacent merge wins; equal ranks
/// are resolved by the left-most occurrence.
#[derive(Clone, Debug)]
pub struct CanonicalBpeOracle {
    merges: WideRuleTable,
}

impl CanonicalBpeOracle {
    /// The oracle's abstract rule table.
    pub closed spec fn rules(&self) -> RuleMap {
        self.merges.rules()
    }

    /// Builds the oracle from merge rules ordered from highest to lowest
    /// priority. The first rule whose pair already occurred is reported.
    pub fn from_ordered_merges(merges: &[MergeTriple]) -> (result: Result<Self, DuplicateMergeRule>)
        ensures
            match result {
                Ok(oracle) => first_repeated_pair(merges@) is None && oracle.rules()
                    == ordered_rule_map(merges@),
                Err(e) => first_repeated_pair(merges@) == Some((e.left, e.right)),
            },
    {
        let merges = WideRuleTable::from_ordered_merges(merges)?;
        Ok(CanonicalBpeOracle { merges })
    }

    pub fn is_empty(&self) -> (b: bool)
        ensures
            b <==> self.rules().is_empty(),
    {
        self.merges.is_empty()
    }

    /// Encodes one complete piece according to canonical BPE rank priority.
    /// The piece is never chunked.
    pub fn encode_ids(&self, input: &[TokenId]) -> (ids: Vec<TokenId>)
        ensures
            ids@ == canonical_encode(self.rules(), input@),
    {
        let mut ids = vstd::slice::slice_to_vec(input);
        let ghost rules = self.rules();
        let mut done = false;
        while !done && ids.len() >= 2
            invariant
                rules == self.rules(),
                canonical_encode(rules, ids@) == canonical_encode(rules, input@),
                done ==> is_fully_merged(rules, ids@),
            decreases ids.len() + (if done { 0int } else { 1int }),
        {
            let mut best: Option<(usize, usize, TokenId)> = None;
            let mut position: usize = 0;
            let last = ids.len() - 1;
            while position < last
                invariant
                    rules == self.rules(),
                    last == ids.len() - 1,
                    ids.len() >= 2,
                    0 <= position <= last,
                    match best {
                        None => forall|q: int| 0 <= q < position ==> !#[trigger] has_merge_at(rules, ids@, q),
                        Some((rank, p, output)) => {
                            &&& p < position
                            &&& has_merge_at(rules, ids@, p as int)
                            &&& rank_at(rules, ids@, p as int) == rank
                            &&& output_at(rules, ids@, p as int) == output
                            &&& forall|q: int|
                                0 <= q < position && #[trigger] has_merge_at(rules, ids@, q)
                                    ==> precedes(rank as int, p as int, rank_at(rules, ids@, q) as int, q)
                        },
                    },
                decreases last - position,
            {
                match self.merges.get(ids[position], ids[position + 1]) {
                    Some((rank, output)) => {
                        let better = match best {
                            None => true,
                            Some((best_rank, best_position, _)) => rank < best_rank || (rank
                                == best_rank && position < best_position),
                        };
                        if better {
                            best = Some((rank, position, output));
                        }
                    },
                    None => {},
                }
                position = position + 1;
            }
            match best {
                None => {
                    done = true;
                },
                Some((_, p, output)) => {
                    proof {
                        assert(is_best_merge(rules, ids@, p as int));
                        lemma_canonical_step(rules, ids@, p as int);
                    }
                    ids.set(p, output);
                    ids.remove(p + 1);
                },
            }
        }
        proof {
            assert forall|q: int| !#[trigger] has_merge_at(rules, ids@, q) by {
                if ids.len() >= 2 {
                    assert(done);
                }
            }
            lemma_canonical_done(rules, ids@);
        }
        ids
    }
}

} // verus!
