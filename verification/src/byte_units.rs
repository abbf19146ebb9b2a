//! Reversible byte-level units of the byte-level BPE vocabularies.
//!
//! Every byte maps to one `char`: ASCII bytes map to themselves and bytes
//! `128..=255` map to `U+0100..=U+017F`. The map is injective, so a vocabulary
//! keyed by these units names every byte exactly once.

use vstd::prelude::*;

verus! {

/// `char::from_u32`, which returns the scalar value `code` when it is one
/// (below `0xD800`, or from `0xE000` to `0x10FFFF`) and `None` otherwise, as
/// its documentation states.
#[verifier::external_body]
fn char_from_u32(code: u32) -> (c: Option<char>)
    ensures
        c == (if code < 0xD800 || (0xE000 <= code && code <= 0x10FFFF) {
            Some(code as char)
        } else {
            None::<char>
        }),
{
    char::from_u32(code)
}

/// `String::push`, which appends the char `c` to the end of the string, as
/// its documentation states.
#[verifier::external_body]
pub(crate) fn push_char(s: &mut String, c: char)
    ensures
        final(s)@ == old(s)@.push(c),
{
    s.push(c);
}

/// Code point of the unit of `byte`.
pub open spec fn unit_code(byte: u8) -> u32 {
    if byte < 128 {
        byte as u32
    } else {
        (byte as u32 + 128) as u32
    }
}

/// The unit of `byte`.
pub open spec fn spec_byte_unit(byte: u8) -> char {
    unit_code(byte) as char
}

/// Maps a byte to its vocabulary unit.
pub fn byte_to_unit(byte: u8) -> (unit: char)
    ensures
        unit == spec_byte_unit(byte),
        unit as u32 == unit_code(byte),
{
    let codepoint: u32 = if byte < 128 {
        byte as u32
    } else {
        256 + (byte as u32 - 128)
    };
    match char_from_u32(codepoint) {
        Some(c) => c,
        None => {
            proof {
                assert(false);
            }
            ' '
        },
    }
}

/// The byte whose unit is `unit`, if any.
pub fn unit_to_byte(unit: char) -> (byte: Option<u8>)
    ensures
        match byte {
            Some(b) => spec_byte_unit(b) == unit,
            None => forall|b: u8| spec_byte_unit(b) != unit,
        },
{
    let code = unit as u32;
    if code < 128 {
        let b = code as u8;
        proof {
            assert((b as u32) as char == unit);
        }
        Some(b)
    } else if 256 <= code && code < 384 {
        let b = (code - 128) as u8;
        proof {
            assert(((b as u32 + 128) as u32) as char == unit);
        }
        Some(b)
    } else {
        proof {
            assert forall|b: u8| spec_byte_unit(b) != unit by {
                if spec_byte_unit(b) == unit {
                    assert(unit as u32 == unit_code(b));
                }
            }
        }
        None
    }
}

/// Distinct bytes have distinct units.
pub proof fn lemma_byte_unit_injective(a: u8, b: u8)
    requires
        spec_byte_unit(a) == spec_byte_unit(b),
    ensures
        a == b,
{
    assert(spec_byte_unit(a) as u32 == unit_code(a));
    assert(spec_byte_unit(b) as u32 == unit_code(b));
}

} // verus!
