//! Compatibility-safe dispatch between historical and canonical BPE
//! semantics.
//!
//! Untagged tokenizer artifacts are always interpreted through the
//! historical parallel-merge path. Only an explicit `canonical-rank-v1` tag
//! activates [`ElasticTextTokenizer`]. This centralizes the migration rule so
//! corpus generation and later inference code cannot accidentally disagree.

use vstd::prelude::*;

use crate::elastic_profile_store::{
    CANONICAL_BPE_SEMANTICS_V1, ElasticHardwareIdentity, ProfileStoreError, StoredElasticProfile,
    merges_fingerprint, payload_intact, same_text, ELASTIC_PROFILE_SCHEMA_V1, ELASTIC_PROFILE_SCHEMA_V2,
};
use crate::elastic_text_tokenizer::{
    BpeMergeSemantics, ElasticTextTokenizer, ElasticTextTokenizerError, LEGACY_BPE_SEMANTICS_V1,
};
use crate::elastic_tokenizer::{BpeKernel, ElasticProfile, ElasticThresholds, ThresholdError};

verus! {

/// The `merge_semantics` field of a tokenizer artifact.
#[derive(Clone, Debug, PartialEq, Eq)]
pub enum SemanticsField {
    Missing,
    /// Present but not a string.
    NotString,
    Text(String),
}

/// Why a tokenizer artifact or profile cannot be dispatched.
#[derive(Clone, Debug, PartialEq, Eq)]
pub enum BpeDispatchError {
    InvalidMergeSemanticsType,
    UnknownMergeSemantics(String),
    Canonical(ElasticTextTokenizerError),
    InvalidReferenceProfile(ThresholdError),
    ProfileStore(ProfileStoreError),
    LegacyProfileUnsupported,
}

/// The merge semantics an artifact declares: a missing tag means the
/// historical semantics; a tag that is not a string, or names no semantics,
/// fails closed.
pub fn declared_semantics(field: &SemanticsField) -> (result: Result<BpeMergeSemantics, BpeDispatchError>)
    ensures
        *field == SemanticsField::Missing ==> result == Ok::<BpeMergeSemantics, BpeDispatchError>(BpeMergeSemantics::LegacyParallelV1),
        *field == SemanticsField::NotString ==> result == Err::<BpeMergeSemantics, BpeDispatchError>(BpeDispatchError::InvalidMergeSemanticsType),
        field matches SemanticsField::Text(t) ==> match result {
            Ok(s) => s.spec_tag() == t@,
            Err(e) => (forall|s: BpeMergeSemantics| s.spec_tag() != t@) && e is UnknownMergeSemantics
                && e->UnknownMergeSemantics_0@ == t@,
        },
{
    match field {
        SemanticsField::Missing => Ok(BpeMergeSemantics::LegacyParallelV1),
        SemanticsField::NotString => Err(BpeDispatchError::InvalidMergeSemanticsType),
        SemanticsField::Text(value) => {
            if same_text(value.as_str(), LEGACY_BPE_SEMANTICS_V1) {
                Ok(BpeMergeSemantics::LegacyParallelV1)
            } else if same_text(value.as_str(), CANONICAL_BPE_SEMANTICS_V1) {
                Ok(BpeMergeSemantics::CanonicalRankV1)
            } else {
                proof {
                    assert forall|s: BpeMergeSemantics| s.spec_tag() != value@ by {
                        match s {
                            BpeMergeSemantics::LegacyParallelV1 => {},
                            BpeMergeSemantics::CanonicalRankV1 => {},
                        }
                    }
                }
                Err(BpeDispatchError::UnknownMergeSemantics(value.clone()))
            }
        },
    }
}

/// The profile a freshly loaded canonical tokenizer starts with: the
/// reference kernel for every class, boundaries 16, 64, 256, 1024 and 4096.
pub fn reference_profile() -> (result: Result<ElasticProfile, ThresholdError>)
    ensures
        result matches Ok(p) && p.spec_thresholds() == (ElasticThresholds {
            s_max: 16,
            m_max: 64,
            l_max: 256,
            xl_max: 1024,
            xxl_max: 4096,
        }) && p.spec_kernels() == seq![BpeKernel::Reference; 6],
{
    let thresholds = match ElasticThresholds::new(16, 64, 256, 1024, 4096) {
        Ok(t) => t,
        Err(e) => return Err(e),
    };
    Ok(ElasticProfile::reference_only(thresholds))
}

/// Verifies a persisted hardware-local profile against the tokenizer's
/// merges and the hardware, and applies it. A rejected profile leaves the
/// tokenizer unchanged.
pub fn apply_stored_profile(
    tokenizer: &mut ElasticTextTokenizer,
    stored: &StoredElasticProfile,
    hardware: &ElasticHardwareIdentity,
) -> (result: Result<(), BpeDispatchError>)
    ensures
        result is Ok <==> {
            &&& (stored.schema_version == ELASTIC_PROFILE_SCHEMA_V1 || stored.schema_version
                == ELASTIC_PROFILE_SCHEMA_V2)
            &&& stored.bpe_semantics@ == CANONICAL_BPE_SEMANTICS_V1@
            &&& stored.tokenizer_fingerprint@ == merges_fingerprint(old(tokenizer).spec_merges())
            &&& stored.hardware.arch@ == hardware.arch@
            &&& stored.hardware.os@ == hardware.os@
            &&& stored.hardware.device@ == hardware.device@
            &&& payload_intact(*stored)
        },
        result matches Err(e) ==> e is ProfileStore,
        result is Ok ==> final(tokenizer).spec_profile() == stored.profile,
        result is Err ==> *final(tokenizer) == *old(tokenizer),
        final(tokenizer).spec_vocab() == old(tokenizer).spec_vocab(),
        final(tokenizer).spec_merges() == old(tokenizer).spec_merges(),
        final(tokenizer).spec_rev() == old(tokenizer).spec_rev(),
        final(tokenizer).spec_reversible() == old(tokenizer).spec_reversible(),
        final(tokenizer).well_formed() == old(tokenizer).well_formed(),
{
    match stored.verify_for(tokenizer.ordered_merges(), hardware) {
        Ok(()) => {},
        Err(e) => return Err(BpeDispatchError::ProfileStore(e)),
    }
    tokenizer.set_profile(stored.profile);
    Ok(())
}

} // verus!
