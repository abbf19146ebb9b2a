//! Compatibility-checked ElasticTokenizer execution profiles.
//!
//! A calibrated profile is a hardware-local optimization artifact, never part
//! of tokenizer semantics. The stored envelope therefore binds the thresholds
//! and kernel choices to both a canonical tokenizer fingerprint and a hardware
//! identity before it can be reused. Fingerprints are lowercase hexadecimal
//! SHA-256 digests of length-prefixed little-endian byte encodings.

use sha2::Digest;

use vstd::prelude::*;

use crate::byte_units::push_char;
use vstd::utf8::encode_utf8;

use crate::bpe_semantics::MergeTriple;
use crate::elastic_tokenizer::{BpeKernel, ElasticProfile, ThresholdError};

verus! {

pub const ELASTIC_PROFILE_SCHEMA_V1: u32 = 1;

pub const ELASTIC_PROFILE_SCHEMA_V2: u32 = 2;

/// Identifier of the canonical rank-priority BPE semantics.
pub const CANONICAL_BPE_SEMANTICS_V1: &'static str = "canonical-rank-v1";

/// Domain separator of the schema-v2 payload fingerprint.
pub const ELASTIC_PROFILE_PAYLOAD_DOMAIN_V2: &'static str = "scirust-elastic-profile-payload-v2";

/// The SHA-256 digest of a byte string.
pub uninterp spec fn sha256_of(bytes: Seq<u8>) -> Seq<u8>;

/// SHA-256 of `bytes` with `sha2::Sha256::digest`, copied into an array; the
/// digest is named, not described.
#[verifier::external_body]
fn sha256_digest(bytes: &[u8]) -> (digest: [u8; 32])
    ensures
        digest@ == sha256_of(bytes@),
{
    let output = sha2::Sha256::digest(bytes);
    let mut digest = [0u8; 32];
    digest.copy_from_slice(output.as_slice());
    digest
}

/// Lowercase hexadecimal digit of a nibble.
pub open spec fn hex_digit(nibble: int) -> char {
    if nibble < 10 {
        (nibble + 48) as char
    } else {
        (nibble + 87) as char
    }
}

/// Lowercase hexadecimal text of a byte string, high nibble first.
pub open spec fn hex_lower(bytes: Seq<u8>) -> Seq<char> {
    Seq::new(
        2 * bytes.len(),
        |i: int|
            if i % 2 == 0 {
                hex_digit(bytes[i / 2] as int / 16)
            } else {
                hex_digit(bytes[i / 2] as int % 16)
            },
    )
}

/// The eight little-endian bytes of a word.
pub open spec fn le_bytes(x: u64) -> Seq<u8> {
    Seq::new(8, |i: int| ((x >> (8 * i) as u64) & 0xff) as u8)
}

/// A byte string preceded by its length as eight little-endian bytes.
pub open spec fn len_prefixed(bytes: Seq<u8>) -> Seq<u8> {
    le_bytes(bytes.len() as u64) + bytes
}

/// The UTF-8 bytes of a string.
pub open spec fn utf8(s: Seq<char>) -> Seq<u8> {
    encode_utf8(s)
}

/// Encoded merges: each rule as three little-endian words.
pub open spec fn merge_words(merges: Seq<MergeTriple>) -> Seq<u8>
    decreases merges.len(),
{
    if merges.len() == 0 {
        Seq::empty()
    } else {
        let m = merges.last();
        merge_words(merges.drop_last()) + le_bytes(m.0 as u64) + le_bytes(m.1 as u64) + le_bytes(
            m.2 as u64,
        )
    }
}

/// Fingerprint of ordered merge semantics.
pub open spec fn merges_fingerprint(merges: Seq<MergeTriple>) -> Seq<char> {
    hex_lower(
        sha256_of(
            len_prefixed(utf8(CANONICAL_BPE_SEMANTICS_V1@)) + le_bytes(merges.len() as u64)
                + merge_words(merges),
        ),
    )
}

/// Stable name of a kernel in stored profiles.
pub open spec fn spec_kernel_name(kernel: BpeKernel) -> Seq<char> {
    match kernel {
        BpeKernel::Reference => seq!['r', 'e', 'f', 'e', 'r', 'e', 'n', 'c', 'e'],
        BpeKernel::TinyScan => seq!['t', 'i', 'n', 'y', '_', 's', 'c', 'a', 'n'],
        BpeKernel::Indexed => seq!['i', 'n', 'd', 'e', 'x', 'e', 'd'],
        BpeKernel::Heap => seq!['h', 'e', 'a', 'p'],
    }
}

/// Lowercase hexadecimal digit of a nibble.
fn hex_char(nibble: u8) -> (c: char)
    requires
        nibble < 16,
    ensures
        c == hex_digit(nibble as int),
{
    if nibble < 10 {
        (nibble + 48) as char
    } else {
        (nibble + 87) as char
    }
}

/// Lowercase hexadecimal SHA-256 digest of `bytes`.
pub fn sha256_hex(bytes: &[u8]) -> (hex: String)
    ensures
        hex@ == hex_lower(sha256_of(bytes@)),
{
    let digest = sha256_digest(bytes);
    let mut hex = String::new();
    let mut i: usize = 0;
    while i < 32
        invariant
            i <= 32,
            digest@ == sha256_of(bytes@),
            hex@ == hex_lower(digest@.take(i as int)),
        decreases 32 - i,
    {
        let byte = digest[i];
        push_char(&mut hex, hex_char(byte / 16));
        push_char(&mut hex, hex_char(byte % 16));
        proof {
            assert(digest@.take(i + 1).take(i as int) =~= digest@.take(i as int));
            assert(hex@ =~= hex_lower(digest@.take(i + 1)));
        }
        i = i + 1;
    }
    assert(digest@.take(32) =~= digest@);
    hex
}

/// Appends the eight little-endian bytes of `x`.
fn append_le_u64(output: &mut Vec<u8>, x: u64)
    ensures
        final(output)@ == old(output)@ + le_bytes(x),
{
    let mut i: u64 = 0;
    let ghost start = output@;
    while i < 8
        invariant
            i <= 8,
            output@ == start + le_bytes(x).take(i as int),
        decreases 8 - i,
    {
        output.push(((x >> (8 * i)) & 0xff) as u8);
        proof {
            assert(output@ =~= start + le_bytes(x).take(i + 1));
        }
        i = i + 1;
    }
    assert(le_bytes(x).take(8) =~= le_bytes(x));
}

/// Appends `bytes` preceded by its length.
fn append_len_prefixed(output: &mut Vec<u8>, bytes: &[u8])
    ensures
        final(output)@ == old(output)@ + len_prefixed(bytes@),
{
    append_le_u64(output, bytes.len() as u64);
    let ghost start = output@;
    let mut i: usize = 0;
    while i < bytes.len()
        invariant
            i <= bytes.len(),
            output@ == start + bytes@.take(i as int),
        decreases bytes.len() - i,
    {
        output.push(bytes[i]);
        proof {
            assert(output@ =~= start + bytes@.take(i + 1));
        }
        i = i + 1;
    }
    assert(bytes@.take(bytes.len() as int) =~= bytes@);
    assert(output@ =~= old(output)@ + len_prefixed(bytes@));
}

/// Canonical fingerprint of the ordered BPE merge semantics consumed by the
/// ElasticTokenizer oracle and optimized kernels.
pub fn ordered_merges_fingerprint(merges: &[MergeTriple]) -> (fingerprint: String)
    ensures
        fingerprint@ == merges_fingerprint(merges@),
{
    let mut bytes: Vec<u8> = Vec::new();
    append_len_prefixed(&mut bytes, CANONICAL_BPE_SEMANTICS_V1.as_bytes());
    append_le_u64(&mut bytes, merges.len() as u64);
    let ghost head = bytes@;
    let mut i: usize = 0;
    assert(merges@.take(0) =~= Seq::<MergeTriple>::empty());
    while i < merges.len()
        invariant
            i <= merges.len(),
            bytes@ == head + merge_words(merges@.take(i as int)),
        decreases merges.len() - i,
    {
        let (left, right, output) = merges[i];
        append_le_u64(&mut bytes, left as u64);
        append_le_u64(&mut bytes, right as u64);
        append_le_u64(&mut bytes, output as u64);
        proof {
            let t = merges@.take(i + 1);
            assert(t.drop_last() =~= merges@.take(i as int));
            assert(t.last() == (left, right, output));
            assert(bytes@ =~= head + merge_words(t));
        }
        i = i + 1;
    }
    assert(merges@.take(merges.len() as int) =~= merges@);
    sha256_hex(bytes.as_slice())
}

/// Stable name of a kernel in stored profiles.
pub fn kernel_name(kernel: BpeKernel) -> (name: &'static str)
    ensures
        name@ == spec_kernel_name(kernel),
{
    match kernel {
        BpeKernel::Reference => {
            proof {
                reveal_strlit("reference");
            }
            "reference"
        },
        BpeKernel::TinyScan => {
            proof {
                reveal_strlit("tiny_scan");
            }
            "tiny_scan"
        },
        BpeKernel::Indexed => {
            proof {
                reveal_strlit("indexed");
            }
            "indexed"
        },
        BpeKernel::Heap => {
            proof {
                reveal_strlit("heap");
            }
            "heap"
        },
    }
}

/// Why a stored profile cannot be reused.
#[derive(Clone, Debug, PartialEq, Eq)]
pub enum ProfileStoreError {
    MissingField(&'static str),
    InvalidField(&'static str),
    InvalidKernelCount(usize),
    UnknownKernel(String),
    UnsupportedSchema(u32),
    SemanticVersionMismatch,
    TokenizerFingerprintMismatch,
    HardwareMismatch,
    HardwareFingerprintCorrupt,
    PayloadFingerprintCorrupt,
    UnexpectedPayloadFingerprint,
    InvalidThresholds(ThresholdError),
}

/// Whether two strings hold the same text.
pub(crate) fn same_text(a: &str, b: &str) -> (same: bool)
    ensures
        same == (a@ == b@),
{
    let a_chars = a.unicode_len();
    let b_chars = b.unicode_len();
    if a_chars != b_chars {
        return false;
    }
    let mut i: usize = 0;
    while i < a_chars
        invariant
            a_chars == a@.len(),
            b_chars == b@.len(),
            a_chars == b_chars,
            i <= a_chars,
            forall|j: int| 0 <= j < i ==> a@[j] == b@[j],
        decreases a_chars - i,
    {
        if a.get_char(i) != b.get_char(i) {
            return false;
        }
        i = i + 1;
    }
    assert(a@ =~= b@);
    true
}

/// The stored kernel name `name`, as a kernel.
pub fn parse_kernel(name: &str) -> (result: Result<BpeKernel, ProfileStoreError>)
    ensures
        match result {
            Ok(kernel) => spec_kernel_name(kernel) == name@,
            Err(e) => (forall|k: BpeKernel| spec_kernel_name(k) != name@) && e
                is UnknownKernel && e->UnknownKernel_0@ == name@,
        },
{
    if same_text(name, kernel_name(BpeKernel::Reference)) {
        Ok(BpeKernel::Reference)
    } else if same_text(name, kernel_name(BpeKernel::TinyScan)) {
        Ok(BpeKernel::TinyScan)
    } else if same_text(name, kernel_name(BpeKernel::Indexed)) {
        Ok(BpeKernel::Indexed)
    } else if same_text(name, kernel_name(BpeKernel::Heap)) {
        Ok(BpeKernel::Heap)
    } else {
        proof {
            assert forall|k: BpeKernel| spec_kernel_name(k) != name@ by {
                match k {
                    BpeKernel::Reference => {},
                    BpeKernel::TinyScan => {},
                    BpeKernel::Indexed => {},
                    BpeKernel::Heap => {},
                }
            }
        }
        Err(ProfileStoreError::UnknownKernel(name.to_owned()))
    }
}

/// Stable identity of the host characteristics used for calibration.
#[derive(Clone, Debug, PartialEq, Eq)]
pub struct ElasticHardwareIdentity {
    pub arch: String,
    pub os: String,
    /// Optional caller-supplied CPU/device discriminator.
    pub device: String,
}

/// Fingerprint of a hardware identity.
pub open spec fn hardware_fingerprint(arch: Seq<char>, os: Seq<char>, device: Seq<char>) -> Seq<char> {
    hex_lower(
        sha256_of(len_prefixed(utf8(arch)) + len_prefixed(utf8(os)) + len_prefixed(utf8(device))),
    )
}

impl ElasticHardwareIdentity {
    pub fn new(arch: &str, os: &str, device: &str) -> (h: Self)
        ensures
            h.arch@ == arch@,
            h.os@ == os@,
            h.device@ == device@,
    {
        ElasticHardwareIdentity { arch: arch.to_owned(), os: os.to_owned(), device: device.to_owned() }
    }

    pub fn fingerprint(&self) -> (fingerprint: String)
        ensures
            fingerprint@ == hardware_fingerprint(self.arch@, self.os@, self.device@),
    {
        let mut bytes: Vec<u8> = Vec::new();
        append_len_prefixed(&mut bytes, self.arch.as_str().as_bytes());
        append_len_prefixed(&mut bytes, self.os.as_str().as_bytes());
        append_len_prefixed(&mut bytes, self.device.as_str().as_bytes());
        assert(bytes@ =~= len_prefixed(utf8(self.arch@)) + len_prefixed(utf8(self.os@))
            + len_prefixed(utf8(self.device@)));
        sha256_hex(bytes.as_slice())
    }

    /// Same identity, field by field.
    pub fn same_as(&self, other: &Self) -> (same: bool)
        ensures
            same == (self.arch@ == other.arch@ && self.os@ == other.os@ && self.device@
                == other.device@),
    {
        self.arch == other.arch && self.os == other.os && self.device == other.device
    }
}

/// The five thresholds as little-endian words.
pub open spec fn threshold_words(t: crate::elastic_tokenizer::ElasticThresholds) -> Seq<u8> {
    le_bytes(t.s_max as u64) + le_bytes(t.m_max as u64) + le_bytes(t.l_max as u64) + le_bytes(
        t.xl_max as u64,
    ) + le_bytes(t.xxl_max as u64)
}

/// The thresholds, then the six kernel names, each length-prefixed.
pub open spec fn profile_words(profile: ElasticProfile) -> Seq<u8> {
    threshold_words(profile.spec_thresholds()) + kernel_words(profile.spec_kernels(), 6)
}

/// The identity fields of a payload, each length-prefixed after the domain.
pub open spec fn payload_header(
    bpe_semantics: Seq<char>,
    tokenizer_fingerprint: Seq<char>,
    arch: Seq<char>,
    os: Seq<char>,
    device: Seq<char>,
) -> Seq<u8> {
    len_prefixed(utf8(ELASTIC_PROFILE_PAYLOAD_DOMAIN_V2@)) + len_prefixed(utf8(bpe_semantics))
        + len_prefixed(utf8(tokenizer_fingerprint)) + len_prefixed(utf8(arch)) + len_prefixed(
        utf8(os),
    ) + len_prefixed(utf8(device))
}

/// Fingerprint of a schema-v2 payload.
pub open spec fn payload_fingerprint(
    bpe_semantics: Seq<char>,
    tokenizer_fingerprint: Seq<char>,
    arch: Seq<char>,
    os: Seq<char>,
    device: Seq<char>,
    profile: ElasticProfile,
) -> Seq<char> {
    parts_fingerprint(
        bpe_semantics,
        tokenizer_fingerprint,
        arch,
        os,
        device,
        profile.spec_thresholds(),
        profile.spec_kernels(),
    )
}

/// Fingerprint of a schema-v2 payload, given the profile's thresholds and kernels.
pub open spec fn parts_fingerprint(
    bpe_semantics: Seq<char>,
    tokenizer_fingerprint: Seq<char>,
    arch: Seq<char>,
    os: Seq<char>,
    device: Seq<char>,
    thresholds: crate::elastic_tokenizer::ElasticThresholds,
    kernels: Seq<BpeKernel>,
) -> Seq<char> {
    hex_lower(
        sha256_of(
            payload_header(bpe_semantics, tokenizer_fingerprint, arch, os, device) + threshold_words(
                thresholds,
            ) + kernel_words(kernels, 6),
        ),
    )
}

fn append_thresholds(bytes: &mut Vec<u8>, thresholds: crate::elastic_tokenizer::ElasticThresholds)
    ensures
        final(bytes)@ == old(bytes)@ + threshold_words(thresholds),
{
    append_le_u64(bytes, thresholds.s_max as u64);
    append_le_u64(bytes, thresholds.m_max as u64);
    append_le_u64(bytes, thresholds.l_max as u64);
    append_le_u64(bytes, thresholds.xl_max as u64);
    append_le_u64(bytes, thresholds.xxl_max as u64);
    assert(bytes@ =~= old(bytes)@ + threshold_words(thresholds));
}

fn profile_payload_fingerprint(
    bpe_semantics: &str,
    tokenizer_fingerprint: &str,
    hardware: &ElasticHardwareIdentity,
    profile: ElasticProfile,
) -> (fingerprint: String)
    ensures
        fingerprint@ == payload_fingerprint(
            bpe_semantics@,
            tokenizer_fingerprint@,
            hardware.arch@,
            hardware.os@,
            hardware.device@,
            profile,
        ),
{
    let thresholds = profile.thresholds();
    let kernels = profile.kernels();
    let mut bytes: Vec<u8> = Vec::new();
    append_len_prefixed(&mut bytes, ELASTIC_PROFILE_PAYLOAD_DOMAIN_V2.as_bytes());
    append_len_prefixed(&mut bytes, bpe_semantics.as_bytes());
    append_len_prefixed(&mut bytes, tokenizer_fingerprint.as_bytes());
    append_len_prefixed(&mut bytes, hardware.arch.as_str().as_bytes());
    append_len_prefixed(&mut bytes, hardware.os.as_str().as_bytes());
    append_len_prefixed(&mut bytes, hardware.device.as_str().as_bytes());
    let ghost head = bytes@;
    assert(head =~= payload_header(
        bpe_semantics@,
        tokenizer_fingerprint@,
        hardware.arch@,
        hardware.os@,
        hardware.device@,
    ));
    append_thresholds(&mut bytes, thresholds);
    let ghost mid = bytes@;
    let mut k: usize = 0;
    assert(kernel_words(kernels@, 0) =~= Seq::<u8>::empty());
    while k < 6
        invariant
            k <= 6,
            kernels@ == profile.spec_kernels(),
            bytes@ == mid + kernel_words(kernels@, k as int),
        decreases 6 - k,
    {
        let name = kernel_name(kernels[k]);
        append_len_prefixed(&mut bytes, name.as_bytes());
        proof {
            assert(kernel_words(kernels@, k + 1) == kernel_words(kernels@, k as int)
                + len_prefixed(utf8(spec_kernel_name(kernels@[k as int]))));
            assert(bytes@ =~= mid + kernel_words(kernels@, k + 1));
        }
        k = k + 1;
    }
    assert(bytes@ =~= head + profile_words(profile));
    sha256_hex(bytes.as_slice())
}

/// The length-prefixed names of the first `k` kernels.
pub open spec fn kernel_words(kernels: Seq<BpeKernel>, k: int) -> Seq<u8>
    decreases k,
{
    if k <= 0 {
        Seq::empty()
    } else {
        kernel_words(kernels, k - 1) + len_prefixed(utf8(spec_kernel_name(kernels[k - 1])))
    }
}

/// Versioned envelope for one calibrated execution profile.
#[derive(Clone, Debug, PartialEq, Eq)]
pub struct StoredElasticProfile {
    pub schema_version: u32,
    pub bpe_semantics: String,
    pub tokenizer_fingerprint: String,
    pub hardware: ElasticHardwareIdentity,
    pub profile: ElasticProfile,
    /// SHA-256 integrity binding for schema-v2 profile payloads. Legacy schema
    /// v1 profiles carry no payload fingerprint.
    pub payload_fingerprint: Option<String>,
}

/// The payload binding of a stored profile holds.
pub open spec fn payload_intact(s: StoredElasticProfile) -> bool {
    ||| s.schema_version == ELASTIC_PROFILE_SCHEMA_V1 && s.payload_fingerprint is None
    ||| s.schema_version == ELASTIC_PROFILE_SCHEMA_V2 && (s.payload_fingerprint matches Some(f) && f@
        == payload_fingerprint(
        s.bpe_semantics@,
        s.tokenizer_fingerprint@,
        s.hardware.arch@,
        s.hardware.os@,
        s.hardware.device@,
        s.profile,
    ))
}

impl StoredElasticProfile {
    /// A schema-v2 envelope binding `profile` to the merges and the hardware.
    pub fn new(merges: &[MergeTriple], hardware: ElasticHardwareIdentity, profile: ElasticProfile) -> (stored:
        Self)
        ensures
            stored.schema_version == ELASTIC_PROFILE_SCHEMA_V2,
            stored.bpe_semantics@ == CANONICAL_BPE_SEMANTICS_V1@,
            stored.tokenizer_fingerprint@ == merges_fingerprint(merges@),
            stored.hardware == hardware,
            stored.profile == profile,
            payload_intact(stored),
    {
        let tokenizer_fingerprint = ordered_merges_fingerprint(merges);
        let payload = profile_payload_fingerprint(
            CANONICAL_BPE_SEMANTICS_V1,
            tokenizer_fingerprint.as_str(),
            &hardware,
            profile,
        );
        StoredElasticProfile {
            schema_version: ELASTIC_PROFILE_SCHEMA_V2,
            bpe_semantics: CANONICAL_BPE_SEMANTICS_V1.to_owned(),
            tokenizer_fingerprint,
            hardware,
            profile,
            payload_fingerprint: Some(payload),
        }
    }

    /// Verifies the self-contained payload integrity binding when present.
    pub fn verify_payload_integrity(&self) -> (result: Result<(), ProfileStoreError>)
        ensures
            result is Ok <==> payload_intact(*self),
            result matches Err(e) ==> e == (if self.schema_version == ELASTIC_PROFILE_SCHEMA_V1 {
                ProfileStoreError::UnexpectedPayloadFingerprint
            } else if self.schema_version == ELASTIC_PROFILE_SCHEMA_V2 {
                if self.payload_fingerprint is None {
                    ProfileStoreError::MissingField("payload_fingerprint")
                } else {
                    ProfileStoreError::PayloadFingerprintCorrupt
                }
            } else {
                ProfileStoreError::UnsupportedSchema(self.schema_version)
            }),
    {
        if self.schema_version == ELASTIC_PROFILE_SCHEMA_V1 {
            if self.payload_fingerprint.is_some() {
                return Err(ProfileStoreError::UnexpectedPayloadFingerprint);
            }
            Ok(())
        } else if self.schema_version == ELASTIC_PROFILE_SCHEMA_V2 {
            let stored = match &self.payload_fingerprint {
                Some(f) => f,
                None => return Err(ProfileStoreError::MissingField("payload_fingerprint")),
            };
            let expected = profile_payload_fingerprint(
                self.bpe_semantics.as_str(),
                self.tokenizer_fingerprint.as_str(),
                &self.hardware,
                self.profile,
            );
            if !(*stored == expected) {
                return Err(ProfileStoreError::PayloadFingerprintCorrupt);
            }
            Ok(())
        } else {
            Err(ProfileStoreError::UnsupportedSchema(self.schema_version))
        }
    }

    /// Verifies that this optimization artifact is safe to reuse for the
    /// supplied tokenizer semantics and hardware identity.
    pub fn verify_for(&self, merges: &[MergeTriple], hardware: &ElasticHardwareIdentity) -> (result:
        Result<(), ProfileStoreError>)
        ensures
            result is Ok <==> {
                &&& (self.schema_version == ELASTIC_PROFILE_SCHEMA_V1 || self.schema_version
                    == ELASTIC_PROFILE_SCHEMA_V2)
                &&& self.bpe_semantics@ == CANONICAL_BPE_SEMANTICS_V1@
                &&& self.tokenizer_fingerprint@ == merges_fingerprint(merges@)
                &&& self.hardware.arch@ == hardware.arch@
                &&& self.hardware.os@ == hardware.os@
                &&& self.hardware.device@ == hardware.device@
                &&& payload_intact(*self)
            },
            result matches Err(e) ==> e == (if !(self.schema_version == ELASTIC_PROFILE_SCHEMA_V1
                || self.schema_version == ELASTIC_PROFILE_SCHEMA_V2) {
                ProfileStoreError::UnsupportedSchema(self.schema_version)
            } else if self.bpe_semantics@ != CANONICAL_BPE_SEMANTICS_V1@ {
                ProfileStoreError::SemanticVersionMismatch
            } else if self.tokenizer_fingerprint@ != merges_fingerprint(merges@) {
                ProfileStoreError::TokenizerFingerprintMismatch
            } else if !(self.hardware.arch@ == hardware.arch@ && self.hardware.os@
                == hardware.os@ && self.hardware.device@ == hardware.device@) {
                ProfileStoreError::HardwareMismatch
            } else if self.schema_version == ELASTIC_PROFILE_SCHEMA_V1 {
                ProfileStoreError::UnexpectedPayloadFingerprint
            } else if self.payload_fingerprint is None {
                ProfileStoreError::MissingField("payload_fingerprint")
            } else {
                ProfileStoreError::PayloadFingerprintCorrupt
            }),
    {
        if !(self.schema_version == ELASTIC_PROFILE_SCHEMA_V1 || self.schema_version
            == ELASTIC_PROFILE_SCHEMA_V2) {
            return Err(ProfileStoreError::UnsupportedSchema(self.schema_version));
        }
        if !same_text(self.bpe_semantics.as_str(), CANONICAL_BPE_SEMANTICS_V1) {
            return Err(ProfileStoreError::SemanticVersionMismatch);
        }
        let expected = ordered_merges_fingerprint(merges);
        if !(self.tokenizer_fingerprint == expected) {
            return Err(ProfileStoreError::TokenizerFingerprintMismatch);
        }
        if !self.hardware.same_as(hardware) {
            return Err(ProfileStoreError::HardwareMismatch);
        }
        self.verify_payload_integrity()
    }
}


/// One field of a stored-profile document, as read: absent, present with the
/// wrong kind of value, or present.
#[derive(Clone, Debug, PartialEq, Eq)]
pub enum DocField<T> {
    Missing,
    Invalid,
    Present(T),
}

/// The hardware object of a stored-profile document. A hardware value that is
/// not an object has every field missing.
#[derive(Clone, Debug, PartialEq, Eq)]
pub struct HardwareDocument {
    pub arch: DocField<String>,
    pub os: DocField<String>,
    pub device: DocField<String>,
    pub fingerprint: DocField<String>,
}

/// The thresholds object of a stored-profile document, as unsigned numbers.
#[derive(Clone, Debug, PartialEq, Eq)]
pub struct ThresholdsDocument {
    pub s_max: DocField<u64>,
    pub m_max: DocField<u64>,
    pub l_max: DocField<u64>,
    pub xl_max: DocField<u64>,
    pub xxl_max: DocField<u64>,
}

/// A stored-profile document as read, before any check. `kernels` is `None`
/// when the field is absent or not a list; an entry is `None` when it is not
/// a string.
#[derive(Clone, Debug, PartialEq, Eq)]
pub struct ProfileDocument {
    pub schema_version: DocField<u64>,
    pub bpe_semantics: DocField<String>,
    pub tokenizer_fingerprint: DocField<String>,
    pub hardware: Option<HardwareDocument>,
    pub thresholds: Option<ThresholdsDocument>,
    pub kernels: Option<Vec<Option<String>>>,
    pub payload_fingerprint: DocField<String>,
}

/// The error of a required field that is absent or of the wrong kind.
pub open spec fn field_error<T>(f: DocField<T>, name: &'static str) -> Option<ProfileStoreError> {
    match f {
        DocField::Missing => Some(ProfileStoreError::MissingField(name)),
        DocField::Invalid => Some(ProfileStoreError::InvalidField(name)),
        DocField::Present(_) => None,
    }
}

/// The error of a required field that must hold a `usize`.
pub open spec fn usize_field_error(f: DocField<u64>, name: &'static str) -> Option<ProfileStoreError> {
    match f {
        DocField::Present(v) => if v <= usize::MAX {
            None
        } else {
            Some(ProfileStoreError::InvalidField(name))
        },
        _ => field_error(f, name),
    }
}

pub open spec fn text_of(f: DocField<String>) -> Seq<char> {
    match f {
        DocField::Present(s) => s@,
        _ => Seq::empty(),
    }
}

pub open spec fn number_of(f: DocField<u64>) -> u64 {
    match f {
        DocField::Present(v) => v,
        _ => 0,
    }
}

/// Some kernel is stored under `name`.
pub open spec fn is_kernel_name(name: Seq<char>) -> bool {
    exists|k: BpeKernel| spec_kernel_name(k) == name
}

/// The kernel stored under `name`.
pub open spec fn kernel_named(name: Seq<char>) -> BpeKernel {
    choose|k: BpeKernel| spec_kernel_name(k) == name
}

/// The error of one entry of the kernel list, if any.
pub open spec fn kernel_entry_error(entry: Option<String>) -> Option<ProfileStoreError> {
    match entry {
        None => Some(ProfileStoreError::InvalidField("kernels")),
        Some(name) => if is_kernel_name(name@) {
            None
        } else {
            Some(ProfileStoreError::UnknownKernel(name))
        },
    }
}

/// The error of the first bad entry at or after `i`, if any.
pub open spec fn kernels_error(entries: Seq<Option<String>>, i: int) -> Option<ProfileStoreError>
    decreases entries.len() - i,
{
    if i < 0 || i >= entries.len() {
        None
    } else if kernel_entry_error(entries[i]) is Some {
        kernel_entry_error(entries[i])
    } else {
        kernels_error(entries, i + 1)
    }
}

/// The kernels named by a list whose entries are all known names.
pub open spec fn named_kernels(entries: Seq<Option<String>>) -> Seq<BpeKernel> {
    entries.map_values(|e: Option<String>| kernel_named(e.unwrap()@))
}

/// Two errors are the same; an unknown kernel is compared by its name's text.
pub open spec fn same_error(a: ProfileStoreError, b: ProfileStoreError) -> bool {
    match (a, b) {
        (ProfileStoreError::UnknownKernel(x), ProfileStoreError::UnknownKernel(y)) => x@ == y@,
        _ => a == b,
    }
}

pub open spec fn hardware_error(h: HardwareDocument) -> Option<ProfileStoreError> {
    if field_error(h.arch, "arch") is Some {
        field_error(h.arch, "arch")
    } else if field_error(h.os, "os") is Some {
        field_error(h.os, "os")
    } else if field_error(h.device, "device") is Some {
        field_error(h.device, "device")
    } else if field_error(h.fingerprint, "fingerprint") is Some {
        field_error(h.fingerprint, "fingerprint")
    } else if text_of(h.fingerprint) != hardware_fingerprint(
        text_of(h.arch),
        text_of(h.os),
        text_of(h.device),
    ) {
        Some(ProfileStoreError::HardwareFingerprintCorrupt)
    } else {
        None
    }
}

pub open spec fn thresholds_error(t: ThresholdsDocument) -> Option<ProfileStoreError> {
    if usize_field_error(t.s_max, "s_max") is Some {
        usize_field_error(t.s_max, "s_max")
    } else if usize_field_error(t.m_max, "m_max") is Some {
        usize_field_error(t.m_max, "m_max")
    } else if usize_field_error(t.l_max, "l_max") is Some {
        usize_field_error(t.l_max, "l_max")
    } else if usize_field_error(t.xl_max, "xl_max") is Some {
        usize_field_error(t.xl_max, "xl_max")
    } else if usize_field_error(t.xxl_max, "xxl_max") is Some {
        usize_field_error(t.xxl_max, "xxl_max")
    } else if !crate::elastic_tokenizer::ElasticThresholds::is_strictly_increasing(
        number_of(t.s_max) as usize,
        number_of(t.m_max) as usize,
        number_of(t.l_max) as usize,
        number_of(t.xl_max) as usize,
        number_of(t.xxl_max) as usize,
    ) {
        Some(ProfileStoreError::InvalidThresholds(ThresholdError))
    } else {
        None
    }
}

/// The thresholds a document holds.
pub open spec fn document_thresholds(t: ThresholdsDocument) -> crate::elastic_tokenizer::ElasticThresholds {
    crate::elastic_tokenizer::ElasticThresholds {
        s_max: number_of(t.s_max) as usize,
        m_max: number_of(t.m_max) as usize,
        l_max: number_of(t.l_max) as usize,
        xl_max: number_of(t.xl_max) as usize,
        xxl_max: number_of(t.xxl_max) as usize,
    }
}

/// The first reason, in reading order, why a document is not a valid stored
/// profile; `None` when it is one.
pub open spec fn document_error(doc: ProfileDocument) -> Option<ProfileStoreError> {
    let version = number_of(doc.schema_version);
    let h = doc.hardware.unwrap();
    let t = doc.thresholds.unwrap();
    let kernels = doc.kernels.unwrap()@;
    if field_error(doc.schema_version, "schema_version") is Some {
        field_error(doc.schema_version, "schema_version")
    } else if version > u32::MAX {
        Some(ProfileStoreError::InvalidField("schema_version"))
    } else if !(version == ELASTIC_PROFILE_SCHEMA_V1 || version == ELASTIC_PROFILE_SCHEMA_V2) {
        Some(ProfileStoreError::UnsupportedSchema(version as u32))
    } else if field_error(doc.bpe_semantics, "bpe_semantics") is Some {
        field_error(doc.bpe_semantics, "bpe_semantics")
    } else if field_error(doc.tokenizer_fingerprint, "tokenizer_fingerprint") is Some {
        field_error(doc.tokenizer_fingerprint, "tokenizer_fingerprint")
    } else if doc.hardware is None {
        Some(ProfileStoreError::MissingField("hardware"))
    } else if hardware_error(h) is Some {
        hardware_error(h)
    } else if doc.thresholds is None {
        Some(ProfileStoreError::MissingField("thresholds"))
    } else if thresholds_error(t) is Some {
        thresholds_error(t)
    } else if doc.kernels is None {
        Some(ProfileStoreError::MissingField("kernels"))
    } else if kernels.len() != 6 {
        Some(ProfileStoreError::InvalidKernelCount(kernels.len() as usize))
    } else if kernels_error(kernels, 0) is Some {
        kernels_error(kernels, 0)
    } else if version == ELASTIC_PROFILE_SCHEMA_V1 {
        if doc.payload_fingerprint is Missing {
            None
        } else {
            Some(ProfileStoreError::UnexpectedPayloadFingerprint)
        }
    } else if field_error(doc.payload_fingerprint, "payload_fingerprint") is Some {
        field_error(doc.payload_fingerprint, "payload_fingerprint")
    } else if text_of(doc.payload_fingerprint) != parts_fingerprint(
        text_of(doc.bpe_semantics),
        text_of(doc.tokenizer_fingerprint),
        text_of(h.arch),
        text_of(h.os),
        text_of(h.device),
        document_thresholds(t),
        named_kernels(kernels),
    ) {
        Some(ProfileStoreError::PayloadFingerprintCorrupt)
    } else {
        None
    }
}

/// The stored profile that a valid document describes.
pub open spec fn describes(s: StoredElasticProfile, doc: ProfileDocument) -> bool {
    let h = doc.hardware.unwrap();
    &&& s.schema_version == number_of(doc.schema_version)
    &&& s.bpe_semantics@ == text_of(doc.bpe_semantics)
    &&& s.tokenizer_fingerprint@ == text_of(doc.tokenizer_fingerprint)
    &&& s.hardware.arch@ == text_of(h.arch)
    &&& s.hardware.os@ == text_of(h.os)
    &&& s.hardware.device@ == text_of(h.device)
    &&& s.profile.spec_thresholds() == document_thresholds(doc.thresholds.unwrap())
    &&& s.profile.spec_kernels() == named_kernels(doc.kernels.unwrap()@)
    &&& (if s.schema_version == ELASTIC_PROFILE_SCHEMA_V1 {
        s.payload_fingerprint is None
    } else {
        s.payload_fingerprint matches Some(f) && f@ == text_of(doc.payload_fingerprint)
    })
}

fn required_text(field: DocField<String>, name: &'static str) -> (result: Result<String, ProfileStoreError>)
    ensures
        match result {
            Ok(s) => field_error(field, name) is None && s@ == text_of(field),
            Err(e) => field_error(field, name) == Some(e),
        },
{
    match field {
        DocField::Missing => Err(ProfileStoreError::MissingField(name)),
        DocField::Invalid => Err(ProfileStoreError::InvalidField(name)),
        DocField::Present(s) => Ok(s),
    }
}

fn required_usize(field: DocField<u64>, name: &'static str) -> (result: Result<usize, ProfileStoreError>)
    ensures
        match result {
            Ok(v) => usize_field_error(field, name) is None && v == number_of(field),
            Err(e) => usize_field_error(field, name) == Some(e),
        },
{
    match field {
        DocField::Missing => Err(ProfileStoreError::MissingField(name)),
        DocField::Invalid => Err(ProfileStoreError::InvalidField(name)),
        DocField::Present(v) => {
            if v <= usize::MAX as u64 {
                Ok(v as usize)
            } else {
                Err(ProfileStoreError::InvalidField(name))
            }
        },
    }
}

fn read_hardware(h: HardwareDocument) -> (result: Result<ElasticHardwareIdentity, ProfileStoreError>)
    ensures
        match result {
            Ok(id) => hardware_error(h) is None && id.arch@ == text_of(h.arch) && id.os@ == text_of(
                h.os,
            ) && id.device@ == text_of(h.device),
            Err(e) => hardware_error(h) == Some(e),
        },
{
    let ghost h0 = h;
    let arch = required_text(h.arch, "arch")?;
    let os = required_text(h.os, "os")?;
    let device = required_text(h.device, "device")?;
    let stored = required_text(h.fingerprint, "fingerprint")?;
    let id = ElasticHardwareIdentity { arch, os, device };
    let expected = id.fingerprint();
    if !(stored == expected) {
        return Err(ProfileStoreError::HardwareFingerprintCorrupt);
    }
    assert(hardware_error(h0) is None);
    Ok(id)
}

fn read_thresholds(t: ThresholdsDocument) -> (result: Result<
    crate::elastic_tokenizer::ElasticThresholds,
    ProfileStoreError,
>)
    ensures
        match result {
            Ok(v) => thresholds_error(t) is None && v == document_thresholds(t),
            Err(e) => thresholds_error(t) == Some(e),
        },
{
    let s_max = required_usize(t.s_max, "s_max")?;
    let m_max = required_usize(t.m_max, "m_max")?;
    let l_max = required_usize(t.l_max, "l_max")?;
    let xl_max = required_usize(t.xl_max, "xl_max")?;
    let xxl_max = required_usize(t.xxl_max, "xxl_max")?;
    match crate::elastic_tokenizer::ElasticThresholds::new(s_max, m_max, l_max, xl_max, xxl_max) {
        Ok(v) => Ok(v),
        Err(e) => Err(ProfileStoreError::InvalidThresholds(e)),
    }
}

fn read_kernels(entries: Vec<Option<String>>) -> (result: Result<[BpeKernel; 6], ProfileStoreError>)
    requires
        entries.len() == 6,
    ensures
        match result {
            Ok(kernels) => kernels_error(entries@, 0) is None && kernels@ == named_kernels(entries@),
            Err(e) => kernels_error(entries@, 0) matches Some(x) && same_error(e, x),
        },
{
    let mut kernels = [BpeKernel::Reference;6];
    let mut i: usize = 0;
    while i < 6
        invariant
            entries.len() == 6,
            i <= 6,
            forall|j: int| 0 <= j < i ==> kernel_entry_error(#[trigger] entries@[j]) is None,
            forall|j: int| 0 <= j < i ==> kernels@[j] == kernel_named(entries@[j].unwrap()@),
            kernels_error(entries@, 0) == kernels_error(entries@, i as int),
        decreases 6 - i,
    {
        match &entries[i] {
            None => {
                return Err(ProfileStoreError::InvalidField("kernels"));
            },
            Some(name) => {
                match parse_kernel(name.as_str()) {
                    Ok(k) => {
                        proof {
                            assert(is_kernel_name(name@));
                            let c = kernel_named(name@);
                            assert(spec_kernel_name(c) == name@);
                            lemma_kernel_name_injective(c, k);
                        }
                        kernels.set(i, k);
                    },
                    Err(e) => {
                        return Err(e);
                    },
                }
            },
        }
        i = i + 1;
    }
    assert(kernels@ =~= named_kernels(entries@));
    Ok(kernels)
}

/// Kernel names are distinct.
pub proof fn lemma_kernel_name_injective(a: BpeKernel, b: BpeKernel)
    requires
        spec_kernel_name(a) == spec_kernel_name(b),
    ensures
        a == b,
{
    match a {
        BpeKernel::Reference => {
            match b {
                BpeKernel::Reference => {},
                BpeKernel::TinyScan => { assert(spec_kernel_name(a)[0] != spec_kernel_name(b)[0]); },
                BpeKernel::Indexed => { assert(spec_kernel_name(a)[0] != spec_kernel_name(b)[0]); },
                BpeKernel::Heap => { assert(spec_kernel_name(a)[0] != spec_kernel_name(b)[0]); },
            }
        },
        BpeKernel::TinyScan => {
            match b {
                BpeKernel::TinyScan => {},
                BpeKernel::Reference => { assert(spec_kernel_name(a)[0] != spec_kernel_name(b)[0]); },
                BpeKernel::Indexed => { assert(spec_kernel_name(a)[0] != spec_kernel_name(b)[0]); },
                BpeKernel::Heap => { assert(spec_kernel_name(a)[0] != spec_kernel_name(b)[0]); },
            }
        },
        BpeKernel::Indexed => {
            match b {
                BpeKernel::Indexed => {},
                BpeKernel::Reference => { assert(spec_kernel_name(a)[0] != spec_kernel_name(b)[0]); },
                BpeKernel::TinyScan => { assert(spec_kernel_name(a)[0] != spec_kernel_name(b)[0]); },
                BpeKernel::Heap => { assert(spec_kernel_name(a)[0] != spec_kernel_name(b)[0]); },
            }
        },
        BpeKernel::Heap => {
            match b {
                BpeKernel::Heap => {},
                BpeKernel::Reference => { assert(spec_kernel_name(a)[0] != spec_kernel_name(b)[0]); },
                BpeKernel::TinyScan => { assert(spec_kernel_name(a)[0] != spec_kernel_name(b)[0]); },
                BpeKernel::Indexed => { assert(spec_kernel_name(a)[0] != spec_kernel_name(b)[0]); },
            }
        },
    }
}

impl StoredElasticProfile {
    /// The stored profile a document describes, checked field by field in
    /// reading order, then for payload integrity.
    pub fn from_document(doc: ProfileDocument) -> (result: Result<Self, ProfileStoreError>)
        ensures
            match result {
                Ok(s) => document_error(doc) is None && describes(s, doc) && payload_intact(s),
                Err(e) => document_error(doc) matches Some(x) && same_error(e, x),
            },
    {
        let ghost d = doc;
        let ProfileDocument {
            schema_version,
            bpe_semantics,
            tokenizer_fingerprint,
            hardware,
            thresholds,
            kernels,
            payload_fingerprint,
        } = doc;
        let version = match schema_version {
            DocField::Missing => return Err(ProfileStoreError::MissingField("schema_version")),
            DocField::Invalid => return Err(ProfileStoreError::InvalidField("schema_version")),
            DocField::Present(v) => v,
        };
        if version > u32::MAX as u64 {
            return Err(ProfileStoreError::InvalidField("schema_version"));
        }
        let version = version as u32;
        if !(version == ELASTIC_PROFILE_SCHEMA_V1 || version == ELASTIC_PROFILE_SCHEMA_V2) {
            return Err(ProfileStoreError::UnsupportedSchema(version));
        }
        let bpe_semantics = required_text(bpe_semantics, "bpe_semantics")?;
        let tokenizer_fingerprint = required_text(tokenizer_fingerprint, "tokenizer_fingerprint")?;
        let hardware = match hardware {
            None => return Err(ProfileStoreError::MissingField("hardware")),
            Some(h) => read_hardware(h)?,
        };
        let thresholds = match thresholds {
            None => return Err(ProfileStoreError::MissingField("thresholds")),
            Some(t) => read_thresholds(t)?,
        };
        let entries = match kernels {
            None => return Err(ProfileStoreError::MissingField("kernels")),
            Some(entries) => entries,
        };
        if entries.len() != 6 {
            return Err(ProfileStoreError::InvalidKernelCount(entries.len()));
        }
        let kernels = read_kernels(entries)?;
        let payload = if version == ELASTIC_PROFILE_SCHEMA_V1 {
            match payload_fingerprint {
                DocField::Missing => None,
                _ => return Err(ProfileStoreError::UnexpectedPayloadFingerprint),
            }
        } else {
            Some(required_text(payload_fingerprint, "payload_fingerprint")?)
        };
        let stored = StoredElasticProfile {
            schema_version: version,
            bpe_semantics,
            tokenizer_fingerprint,
            hardware,
            profile: ElasticProfile::new(thresholds, kernels),
            payload_fingerprint: payload,
        };
        match stored.verify_payload_integrity() {
            Ok(()) => Ok(stored),
            Err(e) => Err(e),
        }
    }
}


/// `doc` is the document written for the stored profile `s`: every field
/// present, the hardware with its fingerprint, the kernels by name, and the
/// payload fingerprint exactly when `s` carries one.
pub open spec fn written_document(doc: ProfileDocument, s: StoredElasticProfile) -> bool {
    let t = s.profile.spec_thresholds();
    &&& doc.schema_version == DocField::Present(s.schema_version as u64)
    &&& doc.bpe_semantics matches DocField::Present(x) && x@ == s.bpe_semantics@
    &&& doc.tokenizer_fingerprint matches DocField::Present(x) && x@ == s.tokenizer_fingerprint@
    &&& doc.hardware matches Some(h) && {
        &&& h.arch matches DocField::Present(x) && x@ == s.hardware.arch@
        &&& h.os matches DocField::Present(x) && x@ == s.hardware.os@
        &&& h.device matches DocField::Present(x) && x@ == s.hardware.device@
        &&& h.fingerprint matches DocField::Present(x) && x@ == hardware_fingerprint(
            s.hardware.arch@,
            s.hardware.os@,
            s.hardware.device@,
        )
    }
    &&& doc.thresholds == Some(
        ThresholdsDocument {
            s_max: DocField::Present(t.s_max as u64),
            m_max: DocField::Present(t.m_max as u64),
            l_max: DocField::Present(t.l_max as u64),
            xl_max: DocField::Present(t.xl_max as u64),
            xxl_max: DocField::Present(t.xxl_max as u64),
        },
    )
    &&& doc.kernels matches Some(names) && names.len() == 6 && forall|i: int|
        0 <= i < 6 ==> (#[trigger] names@[i] matches Some(n) && n@ == spec_kernel_name(
            s.profile.spec_kernels()[i],
        ))
    &&& match s.payload_fingerprint {
        None => doc.payload_fingerprint is Missing,
        Some(f) => doc.payload_fingerprint matches DocField::Present(x) && x@ == f@,
    }
}

impl StoredElasticProfile {
    /// The document to persist for this profile; refused when the payload
    /// binding does not hold.
    pub fn to_document(&self) -> (result: Result<ProfileDocument, ProfileStoreError>)
        ensures
            result is Ok <==> payload_intact(*self),
            match result {
                Ok(doc) => written_document(doc, *self),
                Err(e) => self.verify_payload_integrity_error(e),
            },
    {
        match self.verify_payload_integrity() {
            Ok(()) => {},
            Err(e) => return Err(e),
        }
        let thresholds = self.profile.thresholds();
        let kernels = self.profile.kernels();
        let mut names: Vec<Option<String>> = Vec::new();
        let mut i: usize = 0;
        while i < 6
            invariant
                i <= 6,
                kernels@ == self.profile.spec_kernels(),
                names.len() == i,
                forall|j: int| 0 <= j < i ==> (#[trigger] names@[j] matches Some(n) && n@ == spec_kernel_name(
                    kernels@[j],
                )),
            decreases 6 - i,
        {
            names.push(Some(kernel_name(kernels[i]).to_owned()));
            i = i + 1;
        }
        let payload = match &self.payload_fingerprint {
            None => DocField::Missing,
            Some(f) => DocField::Present(f.clone()),
        };
        Ok(ProfileDocument {
            schema_version: DocField::Present(self.schema_version as u64),
            bpe_semantics: DocField::Present(self.bpe_semantics.clone()),
            tokenizer_fingerprint: DocField::Present(self.tokenizer_fingerprint.clone()),
            hardware: Some(
                HardwareDocument {
                    arch: DocField::Present(self.hardware.arch.clone()),
                    os: DocField::Present(self.hardware.os.clone()),
                    device: DocField::Present(self.hardware.device.clone()),
                    fingerprint: DocField::Present(self.hardware.fingerprint()),
                },
            ),
            thresholds: Some(
                ThresholdsDocument {
                    s_max: DocField::Present(thresholds.s_max as u64),
                    m_max: DocField::Present(thresholds.m_max as u64),
                    l_max: DocField::Present(thresholds.l_max as u64),
                    xl_max: DocField::Present(thresholds.xl_max as u64),
                    xxl_max: DocField::Present(thresholds.xxl_max as u64),
                },
            ),
            kernels: Some(names),
            payload_fingerprint: payload,
        })
    }

    /// `e` is the error that the payload check reports for this profile.
    pub open spec fn verify_payload_integrity_error(self, e: ProfileStoreError) -> bool {
        e == (if self.schema_version == ELASTIC_PROFILE_SCHEMA_V1 {
            ProfileStoreError::UnexpectedPayloadFingerprint
        } else if self.schema_version == ELASTIC_PROFILE_SCHEMA_V2 {
            if self.payload_fingerprint is None {
                ProfileStoreError::MissingField("payload_fingerprint")
            } else {
                ProfileStoreError::PayloadFingerprintCorrupt
            }
        } else {
            ProfileStoreError::UnsupportedSchema(self.schema_version)
        })
    }
}

/// A stored profile with an intact payload and valid thresholds, written as
/// a document, reads back without error as that same profile.
pub proof fn lemma_document_roundtrip(s: StoredElasticProfile, doc: ProfileDocument)
    requires
        payload_intact(s),
        crate::elastic_tokenizer::ElasticThresholds::is_strictly_increasing(
            s.profile.spec_thresholds().s_max,
            s.profile.spec_thresholds().m_max,
            s.profile.spec_thresholds().l_max,
            s.profile.spec_thresholds().xl_max,
            s.profile.spec_thresholds().xxl_max,
        ),
        written_document(doc, s),
    ensures
        document_error(doc) is None,
        describes(s, doc),
{
    let names = doc.kernels.unwrap()@;
    let ks = s.profile.spec_kernels();
    assert(s.profile.spec_kernels().len() == 6) by {
        s.profile.lemma_kernels_len();
    }
    assert forall|i: int| 0 <= i < 6 implies kernel_entry_error(#[trigger] names[i]) is None && kernel_named(
        names[i].unwrap()@,
    ) == ks[i] by {
        assert(spec_kernel_name(ks[i]) == names[i].unwrap()@);
        assert(is_kernel_name(names[i].unwrap()@));
        let c = kernel_named(names[i].unwrap()@);
        lemma_kernel_name_injective(c, ks[i]);
    }
    assert forall|i: int| 0 <= i <= 6 implies kernels_error(names, i) is None by {
        lemma_kernels_error_none(names, i);
    }
    assert(named_kernels(names) =~= ks);
    assert(document_thresholds(doc.thresholds.unwrap()) == s.profile.spec_thresholds());
}

proof fn lemma_kernels_error_none(entries: Seq<Option<String>>, i: int)
    requires
        0 <= i <= entries.len(),
        forall|j: int| 0 <= j < entries.len() ==> kernel_entry_error(#[trigger] entries[j]) is None,
    ensures
        kernels_error(entries, i) is None,
    decreases entries.len() - i,
{
    if i < entries.len() {
        lemma_kernels_error_none(entries, i + 1);
    }
}


/// A word is determined by its eight little-endian bytes.
pub proof fn lemma_le_bytes_injective(x: u64, y: u64)
    requires
        le_bytes(x) == le_bytes(y),
    ensures
        x == y,
{
    let bx = le_bytes(x);
    let by = le_bytes(y);
    assert(bx[0] == by[0] && bx[1] == by[1] && bx[2] == by[2] && bx[3] == by[3]);
    assert(bx[4] == by[4] && bx[5] == by[5] && bx[6] == by[6] && bx[7] == by[7]);
    assert(((x >> 0u64) & 0xff) as u8 == ((y >> 0u64) & 0xff) as u8);
    assert(((x >> 8u64) & 0xff) as u8 == ((y >> 8u64) & 0xff) as u8);
    assert(((x >> 16u64) & 0xff) as u8 == ((y >> 16u64) & 0xff) as u8);
    assert(((x >> 24u64) & 0xff) as u8 == ((y >> 24u64) & 0xff) as u8);
    assert(((x >> 32u64) & 0xff) as u8 == ((y >> 32u64) & 0xff) as u8);
    assert(((x >> 40u64) & 0xff) as u8 == ((y >> 40u64) & 0xff) as u8);
    assert(((x >> 48u64) & 0xff) as u8 == ((y >> 48u64) & 0xff) as u8);
    assert(((x >> 56u64) & 0xff) as u8 == ((y >> 56u64) & 0xff) as u8);
    assert(x == y) by (bit_vector)
        requires
            ((x >> 0u64) & 0xff) as u8 == ((y >> 0u64) & 0xff) as u8,
            ((x >> 8u64) & 0xff) as u8 == ((y >> 8u64) & 0xff) as u8,
            ((x >> 16u64) & 0xff) as u8 == ((y >> 16u64) & 0xff) as u8,
            ((x >> 24u64) & 0xff) as u8 == ((y >> 24u64) & 0xff) as u8,
            ((x >> 32u64) & 0xff) as u8 == ((y >> 32u64) & 0xff) as u8,
            ((x >> 40u64) & 0xff) as u8 == ((y >> 40u64) & 0xff) as u8,
            ((x >> 48u64) & 0xff) as u8 == ((y >> 48u64) & 0xff) as u8,
            ((x >> 56u64) & 0xff) as u8 == ((y >> 56u64) & 0xff) as u8,
    ;
}

/// The hashed threshold words determine all five thresholds: two threshold
/// sets that differ anywhere (the largest bound included) hash different
/// bytes.
pub proof fn lemma_threshold_words_injective(
    a: crate::elastic_tokenizer::ElasticThresholds,
    b: crate::elastic_tokenizer::ElasticThresholds,
)
    requires
        threshold_words(a) == threshold_words(b),
    ensures
        a == b,
{
    let wa = threshold_words(a);
    let wb = threshold_words(b);
    assert(wa.len() == 40);
    assert(wa.subrange(0, 8) =~= le_bytes(a.s_max as u64));
    assert(wb.subrange(0, 8) =~= le_bytes(b.s_max as u64));
    assert(wa.subrange(8, 16) =~= le_bytes(a.m_max as u64));
    assert(wb.subrange(8, 16) =~= le_bytes(b.m_max as u64));
    assert(wa.subrange(16, 24) =~= le_bytes(a.l_max as u64));
    assert(wb.subrange(16, 24) =~= le_bytes(b.l_max as u64));
    assert(wa.subrange(24, 32) =~= le_bytes(a.xl_max as u64));
    assert(wb.subrange(24, 32) =~= le_bytes(b.xl_max as u64));
    assert(wa.subrange(32, 40) =~= le_bytes(a.xxl_max as u64));
    assert(wb.subrange(32, 40) =~= le_bytes(b.xxl_max as u64));
    lemma_le_bytes_injective(a.s_max as u64, b.s_max as u64);
    lemma_le_bytes_injective(a.m_max as u64, b.m_max as u64);
    lemma_le_bytes_injective(a.l_max as u64, b.l_max as u64);
    lemma_le_bytes_injective(a.xl_max as u64, b.xl_max as u64);
    lemma_le_bytes_injective(a.xxl_max as u64, b.xxl_max as u64);
}

/// The bytes a stored profile's payload fingerprint hashes determine its
/// thresholds: with the same identity fields, profiles whose thresholds
/// differ in any bound hash different payloads.
pub proof fn lemma_payload_determines_thresholds(
    header: Seq<u8>,
    a: crate::elastic_tokenizer::ElasticThresholds,
    ka: Seq<BpeKernel>,
    b: crate::elastic_tokenizer::ElasticThresholds,
    kb: Seq<BpeKernel>,
)
    requires
        header + threshold_words(a) + kernel_words(ka, 6) == header + threshold_words(b) + kernel_words(kb, 6),
    ensures
        a == b,
{
    let pa = header + threshold_words(a) + kernel_words(ka, 6);
    let pb = header + threshold_words(b) + kernel_words(kb, 6);
    let n = header.len() as int;
    assert(threshold_words(a).len() == 40 && threshold_words(b).len() == 40);
    assert(pa.subrange(n, n + 40) =~= threshold_words(a));
    assert(pb.subrange(n, n + 40) =~= threshold_words(b));
    lemma_threshold_words_injective(a, b);
}

} // verus!
