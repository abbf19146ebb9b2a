//! Semantics-safe execution router for ElasticTokenizer BPE kernels.
//!
//! The router records both the requested and executed kernels. Unimplemented
//! kernels and out-of-capacity tiny pieces fall back to the canonical oracle;
//! they never change tokenization and never split a piece.

use vstd::prelude::*;

use crate::bpe_semantics::{
    MergeTriple, RuleMap, TokenId, canonical_encode, first_repeated_pair,
    lemma_first_repeated_pair, ordered_rule_map,
};
use crate::elastic_indexed::IndexedBpe;
use crate::elastic_tiny::{TINY_SCAN_CAPACITY, TinyScanBpe};
use crate::elastic_tokenizer::{
    BpeKernel, CanonicalBpeOracle, DuplicateMergeRule, ElasticProfile, PieceClass,
};

verus! {

/// Result of one elastic BPE piece encoding.
#[derive(Clone, Debug, PartialEq, Eq)]
pub struct ElasticEncoding {
    pub ids: Vec<TokenId>,
    pub class: PieceClass,
    pub requested_kernel: BpeKernel,
    pub executed_kernel: BpeKernel,
}

/// The kernel that actually runs for a requested kernel and a piece of
/// `input_len` ids: an oversized tiny request and the reserved heap identity
/// fall back to the reference oracle.
pub open spec fn executed_kernel_for(requested: BpeKernel, input_len: nat) -> BpeKernel {
    match requested {
        BpeKernel::TinyScan => if input_len <= TINY_SCAN_CAPACITY {
            BpeKernel::TinyScan
        } else {
            BpeKernel::Reference
        },
        BpeKernel::Indexed => BpeKernel::Indexed,
        BpeKernel::Reference | BpeKernel::Heap => BpeKernel::Reference,
    }
}

/// BPE engine that routes complete pieces while preserving one canonical
/// rank-priority semantic contract.
#[derive(Clone)]
pub struct ElasticBpeEngine {
    reference: CanonicalBpeOracle,
    tiny_scan: TinyScanBpe,
    indexed: IndexedBpe,
    profile: ElasticProfile,
}

impl ElasticBpeEngine {
    /// All kernels hold the same rules.
    pub closed spec fn well_formed(&self) -> bool {
        &&& self.tiny_scan.well_formed()
        &&& self.indexed.well_formed()
        &&& self.tiny_scan.rules() == self.reference.rules()
        &&& self.indexed.rules() == self.reference.rules()
    }

    /// The engine's abstract rules.
    pub closed spec fn rules(&self) -> RuleMap {
        self.reference.rules()
    }

    /// The engine's current profile.
    pub closed spec fn spec_profile(&self) -> ElasticProfile {
        self.profile
    }

    /// Builds every kernel from the same ordered merges; the first rule whose
    /// pair already occurred is reported.
    pub fn from_ordered_merges(merges: &[MergeTriple], profile: ElasticProfile) -> (result: Result<
        Self,
        DuplicateMergeRule,
    >)
        ensures
            match result {
                Ok(engine) => first_repeated_pair(merges@) is None && engine.well_formed()
                    && engine.rules() == ordered_rule_map(merges@) && engine.spec_profile()
                    == profile,
                Err(e) => first_repeated_pair(merges@) == Some((e.left, e.right)),
            },
    {
        proof {
            lemma_first_repeated_pair(merges@);
        }
        let reference = CanonicalBpeOracle::from_ordered_merges(merges)?;
        let tiny_scan = match TinyScanBpe::from_ordered_merges(merges) {
            Ok(t) => t,
            Err(e) => return Err(e),
        };
        let indexed = match IndexedBpe::from_ordered_merges(merges) {
            Ok(t) => t,
            Err(e) => return Err(e),
        };
        Ok(ElasticBpeEngine { reference, tiny_scan, indexed, profile })
    }

    pub fn profile(&self) -> (p: ElasticProfile)
        ensures
            p == self.spec_profile(),
    {
        self.profile
    }

    /// Replaces the profile; the rules are unchanged.
    pub fn set_profile(&mut self, profile: ElasticProfile)
        ensures
            final(self).spec_profile() == profile,
            final(self).rules() == old(self).rules(),
            final(self).well_formed() == old(self).well_formed(),
    {
        self.profile = profile;
    }

    /// Encodes one complete pre-tokenized piece.
    ///
    /// `piece_len` is the original byte length used for profile routing. `input`
    /// remains whole regardless of the selected execution class, and the ids
    /// are the canonical encoding whichever kernel runs (the indexed kernel's
    /// wide path is stated for pieces of at most `u32::MAX` ids).
    pub fn encode_ids(&self, input: &[TokenId], piece_len: usize) -> (encoded: ElasticEncoding)
        requires
            self.well_formed(),
        ensures
            encoded.class == self.spec_profile().spec_thresholds().spec_classify(piece_len),
            encoded.requested_kernel == self.spec_profile().spec_kernel_for(piece_len),
            encoded.executed_kernel == executed_kernel_for(
                encoded.requested_kernel,
                input.len() as nat,
            ),
            encoded.executed_kernel != BpeKernel::Indexed || input.len() <= u32::MAX
                ==> encoded.ids@ == canonical_encode(self.rules(), input@),
    {
        let class = self.profile.class_for(piece_len);
        let requested_kernel = self.profile.kernel_for(piece_len);
        let (ids, executed_kernel) = match requested_kernel {
            BpeKernel::TinyScan => {
                match self.tiny_scan.try_encode_ids(input) {
                    Some(ids) => (ids, BpeKernel::TinyScan),
                    None => (self.reference.encode_ids(input), BpeKernel::Reference),
                }
            },
            BpeKernel::Indexed => (self.indexed.encode_ids(input), BpeKernel::Indexed),
            // Heap remains a reserved profile identity here; falling back is
            // explicit and observable.
            BpeKernel::Reference | BpeKernel::Heap => {
                (self.reference.encode_ids(input), BpeKernel::Reference)
            },
        };
        ElasticEncoding { ids, class, requested_kernel, executed_kernel }
    }
}

} // verus!
