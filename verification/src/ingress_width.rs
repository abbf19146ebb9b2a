//! Ingress of tiny pieces into the 32-bit tiny-kernel work buffer: through
//! the wide byte-id table with a width check per id, or directly through a
//! compact table. When both tables agree, both fill the buffer identically.

use vstd::prelude::*;

use crate::bpe_semantics::TokenId;

verus! {

/// Work-buffer capacity of the tiny kernel.
pub const INGRESS_CAPACITY: usize = 128;

/// Base token id of every byte, at full and at compact width.
#[derive(Clone, Copy, Debug)]
pub struct ByteLuts {
    pub wide: [TokenId; 256],
    pub compact: [u32; 256],
}

/// The compact table holds the wide ids.
pub open spec fn luts_agree(luts: ByteLuts) -> bool {
    forall|b: int| 0 <= b < 256 ==> luts.wide@[b] == luts.compact@[b] as TokenId
}

/// The work buffer holds the looked-up ids of the first bytes (as many as
/// fit) and zeros after them.
pub open spec fn ingress_buffer(work: Seq<u32>, table: Seq<u32>, bytes: Seq<u8>) -> bool {
    &&& work.len() == 128
    &&& forall|i: int| 0 <= i < 128 ==> #[trigger] work[i] == if i < bytes.len() {
        table[bytes[i] as int]
    } else {
        0u32
    }
}

/// The compact view of the wide table over the bytes in use.
pub open spec fn narrowed(wide: Seq<TokenId>) -> Seq<u32> {
    Seq::new(256, |b: int| wide[b] as u32)
}

/// Current ingress: each byte's wide id, checked to fit 32 bits, narrowed
/// into the buffer.
pub fn current_ingress(luts: &ByteLuts, bytes: &[u8]) -> (result: ([u32; 128], usize))
    requires
        forall|i: int| 0 <= i < bytes.len() ==> luts.wide@[bytes@[i] as int] <= u32::MAX,
    ensures
        ingress_buffer(result.0@, narrowed(luts.wide@), bytes@),
        result.1 == bytes.len(),
{
    let mut wide: Vec<TokenId> = Vec::new();
    let mut i: usize = 0;
    while i < bytes.len()
        invariant
            i <= bytes.len(),
            wide.len() == i,
            forall|j: int| 0 <= j < i ==> wide@[j] == luts.wide@[bytes@[j] as int],
        decreases bytes.len() - i,
    {
        wide.push(luts.wide[bytes[i] as usize]);
        i = i + 1;
    }
    let mut work = [0u32; 128];
    let mut k: usize = 0;
    while k < wide.len() && k < INGRESS_CAPACITY
        invariant
            k <= 128,
            k <= wide.len(),
            wide.len() == bytes.len(),
            forall|j: int| 0 <= j < bytes.len() ==> luts.wide@[bytes@[j] as int] <= u32::MAX,
            forall|j: int| 0 <= j < wide.len() ==> wide@[j] == luts.wide@[bytes@[j] as int],
            forall|j: int| 0 <= j < k ==> work@[j] == narrowed(luts.wide@)[bytes@[j] as int],
            forall|j: int| k <= j < 128 ==> work@[j] == 0u32,
        decreases 128 - k,
    {
        work[k] = wide[k] as u32;
        k = k + 1;
    }
    (work, bytes.len())
}

/// Direct ingress through the compact table.
pub fn direct_ingress(luts: &ByteLuts, bytes: &[u8]) -> (result: ([u32; 128], usize))
    ensures
        ingress_buffer(result.0@, luts.compact@, bytes@),
        result.1 == bytes.len(),
{
    let mut work = [0u32; 128];
    let mut k: usize = 0;
    while k < bytes.len() && k < INGRESS_CAPACITY
        invariant
            k <= 128,
            k <= bytes.len(),
            forall|j: int| 0 <= j < k ==> work@[j] == luts.compact@[bytes@[j] as int],
            forall|j: int| k <= j < 128 ==> work@[j] == 0u32,
        decreases 128 - k,
    {
        work[k] = luts.compact[bytes[k] as usize];
        k = k + 1;
    }
    (work, bytes.len())
}

/// When the compact table holds the wide ids, both ingress paths fill the
/// work buffer identically.
pub proof fn lemma_ingress_paths_agree(luts: ByteLuts, bytes: Seq<u8>, current: Seq<u32>, direct: Seq<u32>)
    requires
        luts_agree(luts),
        ingress_buffer(current, narrowed(luts.wide@), bytes),
        ingress_buffer(direct, luts.compact@, bytes),
    ensures
        current == direct,
{
    assert forall|i: int| 0 <= i < 128 implies current[i] == direct[i] by {
        if i < bytes.len() {
            let b = bytes[i] as int;
            assert(luts.wide@[b] == luts.compact@[b] as TokenId);
        }
    }
    assert(current =~= direct);
}

/// Both tables give every byte of `bytes` that reaches the buffer the same
/// 32-bit id.
pub open spec fn ingress_ids_agree(luts: ByteLuts, bytes: Seq<u8>) -> bool {
    forall|i: int|
        0 <= i < bytes.len() && i < 128 ==> (luts.wide@[#[trigger] bytes[i] as int] as u32)
            == luts.compact@[bytes[i] as int]
}

/// Whether both ingress paths fill the buffer identically for `bytes`.
pub fn same_ingress_ids(luts: &ByteLuts, bytes: &[u8]) -> (same: bool)
    requires
        forall|i: int| 0 <= i < bytes.len() ==> luts.wide@[bytes@[i] as int] <= u32::MAX,
    ensures
        same <==> ingress_ids_agree(*luts, bytes@),
        luts_agree(*luts) ==> same,
{
    let (current, current_len) = current_ingress(luts, bytes);
    let (direct, direct_len) = direct_ingress(luts, bytes);
    proof {
        if luts_agree(*luts) {
            lemma_ingress_paths_agree(*luts, bytes@, current@, direct@);
        }
    }
    if current_len != direct_len {
        return false;
    }
    let mut i: usize = 0;
    while i < INGRESS_CAPACITY
        invariant
            i <= 128,
            ingress_buffer(current@, narrowed(luts.wide@), bytes@),
            ingress_buffer(direct@, luts.compact@, bytes@),
            forall|j: int| 0 <= j < i ==> current@[j] == direct@[j],
        decreases 128 - i,
    {
        if current[i] != direct[i] {
            proof {
                assert(current@[i as int] == current[i as int]);
                assert(!ingress_ids_agree(*luts, bytes@)) by {
                    assert(i < bytes.len());
                    assert((luts.wide@[bytes@[i as int] as int] as u32) == narrowed(luts.wide@)[bytes@[i as int] as int]);
                }
            }
            return false;
        }
        i = i + 1;
    }
    proof {
        assert forall|j: int| 0 <= j < bytes.len() && j < 128 implies (luts.wide@[#[trigger] bytes@[j] as int] as u32)
            == luts.compact@[bytes@[j] as int] by {
            assert(current@[j] == direct@[j]);
            assert((luts.wide@[bytes@[j] as int] as u32) == narrowed(luts.wide@)[bytes@[j] as int]);
        }
    }
    true
}

} // verus!
