//! Compact integer representations for ElasticTokenizer hot paths.
//!
//! Internal hot-path fields use exact `u32` domains and pack two such values
//! into one `u64` word (high half first) without changing tokenizer semantics.
//! Numeric order of a packed word is the lexicographic order of its halves.

use vstd::prelude::*;

verus! {

/// `prev`/`next` sentinel representing no adjacent node.
pub const COMPACT_INDEX_NONE: u32 = 0xffff_ffffu32;

/// `prev`/`next` sentinel representing a node removed by a merge.
pub const COMPACT_INDEX_INACTIVE: u32 = 0xffff_fffeu32;

/// Largest node index available without colliding with compact sentinels.
pub const COMPACT_INDEX_MAX: u32 = 0xffff_fffdu32;

/// `2^32`, the weight of the high half of a packed word.
pub open spec fn half_base() -> int {
    0x1_0000_0000
}

/// The packed word whose high half is `hi` and low half is `lo`.
pub open spec fn pack_u32_pair(hi: u32, lo: u32) -> u64 {
    (hi as int * half_base() + lo as int) as u64
}

/// High half of a packed word.
pub open spec fn high_half(word: u64) -> u32 {
    (word as int / half_base()) as u32
}

/// Low half of a packed word.
pub open spec fn low_half(word: u64) -> u32 {
    (word as int % half_base()) as u32
}

/// Packing is lossless: both halves are recovered exactly.
pub proof fn lemma_pack_roundtrip(hi: u32, lo: u32)
    ensures
        hi as int * half_base() + lo as int <= u64::MAX,
        high_half(pack_u32_pair(hi, lo)) == hi,
        low_half(pack_u32_pair(hi, lo)) == lo,
{
    assert(hi as int * half_base() + lo as int <= u64::MAX) by (nonlinear_arith)
        requires
            hi <= u32::MAX,
            lo <= u32::MAX,
            half_base() == 0x1_0000_0000,
    ;
    let w = hi as int * half_base() + lo as int;
    assert(w / half_base() == hi as int && w % half_base() == lo as int) by (nonlinear_arith)
        requires
            w == hi as int * half_base() + lo as int,
            0 <= lo < half_base(),
            half_base() == 0x1_0000_0000,
    ;
}

/// Numeric order of packed words is lexicographic order of their halves.
pub proof fn lemma_pack_order(hi_a: u32, lo_a: u32, hi_b: u32, lo_b: u32)
    ensures
        (pack_u32_pair(hi_a, lo_a) < pack_u32_pair(hi_b, lo_b)) <==> (hi_a < hi_b || (hi_a == hi_b
            && lo_a < lo_b)),
        (pack_u32_pair(hi_a, lo_a) == pack_u32_pair(hi_b, lo_b)) <==> (hi_a == hi_b && lo_a
            == lo_b),
{
    lemma_pack_roundtrip(hi_a, lo_a);
    lemma_pack_roundtrip(hi_b, lo_b);
    let a = hi_a as int * half_base() + lo_a as int;
    let b = hi_b as int * half_base() + lo_b as int;
    assert((a < b) <==> (hi_a < hi_b || (hi_a == hi_b && lo_a < lo_b))) by (nonlinear_arith)
        requires
            a == hi_a as int * half_base() + lo_a as int,
            b == hi_b as int * half_base() + lo_b as int,
            0 <= lo_a < half_base(),
            0 <= lo_b < half_base(),
            0 <= hi_a,
            0 <= hi_b,
            half_base() == 0x1_0000_0000,
    ;
}

fn pack_word(hi: u32, lo: u32) -> (word: u64)
    ensures
        word == pack_u32_pair(hi, lo),
{
    proof {
        lemma_pack_roundtrip(hi, lo);
    }
    let word = ((hi as u64) << 32u64) | (lo as u64);
    assert(((hi as u64) << 32u64) | (lo as u64) == (hi as u64) * 0x1_0000_0000u64 + (lo as u64))
        by (bit_vector)
        requires
            hi <= 0xffff_ffffu32,
    ;
    word
}

fn high_u32(word: u64) -> (hi: u32)
    ensures
        hi == high_half(word),
{
    assert((word >> 32u64) == word / 0x1_0000_0000u64) by (bit_vector);
    (word >> 32u64) as u32
}

fn low_u32(word: u64) -> (lo: u32)
    ensures
        lo == low_half(word),
{
    assert((word & 0xffff_ffffu64) == word % 0x1_0000_0000u64) by (bit_vector);
    (word & 0xffff_ffffu64) as u32
}

/// A node index that is too wide for the compact `u32` domain.
#[derive(Clone, Copy, Debug, PartialEq, Eq)]
pub enum CompactWordError {
    FieldTooWide { field: &'static str, value: usize },
}

/// A token id that does not fit the compact `u32` domain.
#[derive(Clone, Copy, Debug, PartialEq, Eq, Structural)]
pub enum PairKeyError {
    TokenIdTooWide(usize),
}

/// Narrows a node index into the compact domain, below the sentinels.
pub fn try_compact_index(index: usize) -> (result: Result<u32, CompactWordError>)
    ensures
        match result {
            Ok(compact) => index <= COMPACT_INDEX_MAX && compact == index,
            Err(CompactWordError::FieldTooWide { field, value }) => index > COMPACT_INDEX_MAX && value
                == index && field@ == "node_index"@,
        },
{
    if index > COMPACT_INDEX_MAX as usize {
        proof {
            reveal_strlit("node_index");
        }
        return Err(CompactWordError::FieldTooWide { field: "node_index", value: index });
    }
    Ok(index as u32)
}

/// Collision-free packed representation of an ordered `(left, right)` token pair.
#[derive(Clone, Copy, Debug, PartialEq, Eq, PartialOrd, Ord, Hash, Structural)]
pub struct PairKey(u64);

impl PairKey {
    /// The packed word.
    pub closed spec fn spec_raw(self) -> u64 {
        self.0
    }

    pub open spec fn spec_left(self) -> u32 {
        high_half(self.spec_raw())
    }

    pub open spec fn spec_right(self) -> u32 {
        low_half(self.spec_raw())
    }

    /// Two keys are equal exactly when their packed words are equal.
    pub proof fn lemma_raw_injective(a: Self, b: Self)
        ensures
            (a == b) <==> (a.spec_raw() == b.spec_raw()),
    {
    }

    pub fn new(left: u32, right: u32) -> (key: Self)
        ensures
            key.spec_raw() == pack_u32_pair(left, right),
            key.spec_left() == left,
            key.spec_right() == right,
    {
        proof {
            lemma_pack_roundtrip(left, right);
        }
        PairKey(pack_word(left, right))
    }

    /// Narrows two token ids; the first one that does not fit is reported.
    pub fn try_from_usize(left: usize, right: usize) -> (result: Result<Self, PairKeyError>)
        ensures
            match result {
                Ok(key) => left <= u32::MAX && right <= u32::MAX && key.spec_raw()
                    == pack_u32_pair(left as u32, right as u32),
                Err(PairKeyError::TokenIdTooWide(value)) => if left > u32::MAX {
                    value == left
                } else {
                    right > u32::MAX && value == right
                },
            },
    {
        if left > u32::MAX as usize {
            return Err(PairKeyError::TokenIdTooWide(left));
        }
        if right > u32::MAX as usize {
            return Err(PairKeyError::TokenIdTooWide(right));
        }
        Ok(Self::new(left as u32, right as u32))
    }

    pub fn left(self) -> (left: u32)
        ensures
            left == self.spec_left(),
    {
        high_u32(self.0)
    }

    pub fn right(self) -> (right: u32)
        ensures
            right == self.spec_right(),
    {
        low_u32(self.0)
    }

    pub fn raw(self) -> (raw: u64)
        ensures
            raw == self.spec_raw(),
    {
        self.0
    }
}

/// Packed `(merge_rank, output_token_id)` rule payload.
#[derive(Clone, Copy, Debug, PartialEq, Eq, PartialOrd, Ord, Hash, Structural)]
pub struct PackedRule(u64);

impl PackedRule {
    /// The packed word.
    pub closed spec fn spec_raw(self) -> u64 {
        self.0
    }

    pub open spec fn spec_rank(self) -> u32 {
        high_half(self.spec_raw())
    }

    pub open spec fn spec_output(self) -> u32 {
        low_half(self.spec_raw())
    }

    pub fn new(rank: u32, output: u32) -> (rule: Self)
        ensures
            rule.spec_raw() == pack_u32_pair(rank, output),
            rule.spec_rank() == rank,
            rule.spec_output() == output,
    {
        proof {
            lemma_pack_roundtrip(rank, output);
        }
        PackedRule(pack_word(rank, output))
    }

    /// Narrows a rank and an output id; the rank is checked first.
    pub fn try_from_usize(rank: usize, output: usize) -> (result: Result<Self, CompactWordError>)
        ensures
            match result {
                Ok(rule) => rank <= u32::MAX && output <= u32::MAX && rule.spec_raw()
                    == pack_u32_pair(rank as u32, output as u32),
                Err(CompactWordError::FieldTooWide { field, value }) => if rank > u32::MAX {
                    value == rank && field@ == "merge_rank"@
                } else {
                    output > u32::MAX && value == output && field@ == "output_token_id"@
                },
            },
    {
        if rank > u32::MAX as usize {
            proof {
                reveal_strlit("merge_rank");
            }
            return Err(CompactWordError::FieldTooWide { field: "merge_rank", value: rank });
        }
        if output > u32::MAX as usize {
            proof {
                reveal_strlit("output_token_id");
            }
            return Err(CompactWordError::FieldTooWide { field: "output_token_id", value: output });
        }
        Ok(Self::new(rank as u32, output as u32))
    }

    pub fn rank(self) -> (rank: u32)
        ensures
            rank == self.spec_rank(),
    {
        high_u32(self.0)
    }

    pub fn output(self) -> (output: u32)
        ensures
            output == self.spec_output(),
    {
        low_u32(self.0)
    }

    pub fn raw(self) -> (raw: u64)
        ensures
            raw == self.spec_raw(),
    {
        self.0
    }
}

/// Packed canonical scheduling key `(merge_rank, left_node_index)`.
///
/// Numeric `u64` ordering is exactly lexicographic ordering of these two `u32`
/// fields, so one integer comparison preserves rank priority and the left-most
/// tie break.
#[derive(Clone, Copy, Debug, PartialEq, Eq, PartialOrd, Ord, Hash, Structural)]
pub struct PriorityKey(u64);

impl PriorityKey {
    /// The packed word.
    pub closed spec fn spec_raw(self) -> u64 {
        self.0
    }

    pub open spec fn spec_rank(self) -> u32 {
        high_half(self.spec_raw())
    }

    pub open spec fn spec_left_index(self) -> u32 {
        low_half(self.spec_raw())
    }

    pub fn new(rank: u32, left_index: u32) -> (key: Self)
        ensures
            key.spec_raw() == pack_u32_pair(rank, left_index),
            key.spec_rank() == rank,
            key.spec_left_index() == left_index,
    {
        proof {
            lemma_pack_roundtrip(rank, left_index);
        }
        PriorityKey(pack_word(rank, left_index))
    }

    /// Narrows a rank and a node index; the rank is checked first, and the
    /// index must stay below the compact sentinels.
    pub fn try_from_usize(rank: usize, left_index: usize) -> (result: Result<
        Self,
        CompactWordError,
    >)
        ensures
            match result {
                Ok(key) => rank <= u32::MAX && left_index <= COMPACT_INDEX_MAX && key.spec_raw()
                    == pack_u32_pair(rank as u32, left_index as u32),
                Err(CompactWordError::FieldTooWide { field, value }) => if rank > u32::MAX {
                    value == rank && field@ == "merge_rank"@
                } else {
                    left_index > COMPACT_INDEX_MAX && value == left_index && field@ == "node_index"@
                },
            },
    {
        if rank > u32::MAX as usize {
            proof {
                reveal_strlit("merge_rank");
            }
            return Err(CompactWordError::FieldTooWide { field: "merge_rank", value: rank });
        }
        let left_index = match try_compact_index(left_index) {
            Ok(i) => i,
            Err(e) => return Err(e),
        };
        Ok(Self::new(rank as u32, left_index))
    }

    pub fn rank(self) -> (rank: u32)
        ensures
            rank == self.spec_rank(),
    {
        high_u32(self.0)
    }

    pub fn left_index(self) -> (left_index: u32)
        ensures
            left_index == self.spec_left_index(),
    {
        low_u32(self.0)
    }

    pub fn raw(self) -> (raw: u64)
        ensures
            raw == self.spec_raw(),
    {
        self.0
    }
}

/// Packed pair keys are lossless and ordered like the `(left, right)` tuple.
pub proof fn lemma_pair_key_order(a: PairKey, b: PairKey)
    ensures
        (a.spec_raw() < b.spec_raw()) <==> (a.spec_left() < b.spec_left() || (a.spec_left()
            == b.spec_left() && a.spec_right() < b.spec_right())),
        (a == b) <==> (a.spec_left() == b.spec_left() && a.spec_right() == b.spec_right()),
{
    lemma_unpack(a.spec_raw());
    lemma_unpack(b.spec_raw());
    lemma_pack_order(a.spec_left(), a.spec_right(), b.spec_left(), b.spec_right());
}

/// Packed priorities are ordered like the `(rank, left_index)` tuple.
pub proof fn lemma_priority_key_order(a: PriorityKey, b: PriorityKey)
    ensures
        (a.spec_raw() < b.spec_raw()) <==> (a.spec_rank() < b.spec_rank() || (a.spec_rank()
            == b.spec_rank() && a.spec_left_index() < b.spec_left_index())),
        (a == b) <==> (a.spec_rank() == b.spec_rank() && a.spec_left_index()
            == b.spec_left_index()),
{
    lemma_unpack(a.spec_raw());
    lemma_unpack(b.spec_raw());
    lemma_pack_order(a.spec_rank(), a.spec_left_index(), b.spec_rank(), b.spec_left_index());
}

/// Every word is the packing of its own halves.
pub proof fn lemma_unpack(word: u64)
    ensures
        pack_u32_pair(high_half(word), low_half(word)) == word,
{
    let w = word as int;
    assert(w / half_base() <= u32::MAX && w == (w / half_base()) * half_base() + w % half_base())
        by (nonlinear_arith)
        requires
            0 <= w <= u64::MAX,
            half_base() == 0x1_0000_0000,
    ;
}

} // verus!
