//! Representative calibration pieces drawn from corpus files.
//!
//! Each probe length takes the leading bytes of the first files long enough
//! for it, until every length has its quota of cases. Bytes become base ids
//! through the byte units of a reversible vocabulary. The caller reads the
//! files, one at a time, and stops once every quota is met.

use vstd::prelude::*;

use crate::bpe_semantics::TokenId;
use crate::byte_units::spec_byte_unit;
use crate::cli_inputs::push_str;
use crate::decimal_text::{decimal_chars, push_decimal};
use crate::elastic_autotune::CalibrationCase;
use crate::elastic_text_tokenizer::{byte_key, byte_key_string, find_id, lookup};

verus! {

/// The id of each byte's unit in a reversible vocabulary, where it has one.
pub open spec fn byte_table_of(entries: Seq<(String, TokenId)>) -> Seq<Option<TokenId>> {
    Seq::new(256, |b: int| lookup(entries, seq![spec_byte_unit(b as u8)]))
}

/// The base id of every byte of a reversible vocabulary, where present.
pub fn byte_id_table(entries: &Vec<(String, TokenId)>) -> (table: Vec<Option<TokenId>>)
    ensures
        table@ == byte_table_of(entries@),
{
    let mut table: Vec<Option<TokenId>> = Vec::new();
    let mut b: usize = 0;
    while b < 256
        invariant
            b <= 256,
            table.len() == b,
            forall|c: int| 0 <= c < b ==> #[trigger] table@[c] == byte_table_of(entries@)[c],
        decreases 256 - b,
    {
        let key = byte_key_string(b as u8, true);
        proof {
            assert(byte_key(b as u8, true) == seq![spec_byte_unit(b as u8)]);
        }
        table.push(find_id(entries, key.as_str()));
        b = b + 1;
    }
    assert(table@ =~= byte_table_of(entries@));
    table
}

/// Every byte of `piece` has an id.
pub open spec fn all_mapped(piece: Seq<u8>, table: Seq<Option<TokenId>>) -> bool {
    forall|i: int| 0 <= i < piece.len() ==> (#[trigger] table[piece[i] as int]) is Some
}

/// The ids of the bytes of `piece`.
pub open spec fn mapped_ids(piece: Seq<u8>, table: Seq<Option<TokenId>>) -> Seq<TokenId> {
    piece.map_values(|b: u8| table[b as int].unwrap())
}

/// `i` is the first byte of `piece` without an id.
pub open spec fn is_first_unmapped(piece: Seq<u8>, table: Seq<Option<TokenId>>, i: int) -> bool {
    &&& 0 <= i < piece.len()
    &&& table[piece[i] as int] is None
    &&& forall|j: int| 0 <= j < i ==> (#[trigger] table[piece[j] as int]) is Some
}

/// The message for a byte without a base token.
pub open spec fn missing_byte_message(b: u8) -> Seq<char> {
    "tokenizer missing byte token "@ + decimal_chars(b as nat)
}

fn missing_byte_error(b: u8) -> (msg: String)
    ensures
        msg@ == missing_byte_message(b),
{
    let mut msg = String::new();
    push_str(&mut msg, "tokenizer missing byte token ");
    push_decimal(&mut msg, b as u64);
    msg
}

/// The base ids of the first `piece_len` bytes.
pub fn piece_ids(bytes: &[u8], piece_len: usize, table: &Vec<Option<TokenId>>) -> (result: Result<
    Vec<TokenId>,
    String,
>)
    requires
        piece_len <= bytes.len(),
        table.len() == 256,
    ensures
        match result {
            Ok(ids) => all_mapped(bytes@.take(piece_len as int), table@) && ids@ == mapped_ids(
                bytes@.take(piece_len as int),
                table@,
            ),
            Err(msg) => exists|i: int|
                is_first_unmapped(bytes@.take(piece_len as int), table@, i) && msg@
                    == missing_byte_message(bytes@[i]),
        },
{
    let ghost piece = bytes@.take(piece_len as int);
    let mut ids: Vec<TokenId> = Vec::new();
    let mut i: usize = 0;
    while i < piece_len
        invariant
            piece_len <= bytes.len(),
            table.len() == 256,
            piece == bytes@.take(piece_len as int),
            i <= piece_len,
            ids.len() == i,
            forall|j: int| 0 <= j < i ==> (#[trigger] table@[piece[j] as int]) is Some,
            forall|j: int| 0 <= j < i ==> #[trigger] ids@[j] == table@[piece[j] as int].unwrap(),
        decreases piece_len - i,
    {
        let b = bytes[i];
        assert(piece[i as int] == b);
        match table[b as usize] {
            Some(id) => {
                ids.push(id);
            },
            None => {
                proof {
                    assert(is_first_unmapped(piece, table@, i as int));
                }
                return Err(missing_byte_error(b));
            },
        }
        i = i + 1;
    }
    assert(ids@ =~= mapped_ids(piece, table@));
    Ok(ids)
}

/// A calibration case as its length and ids.
pub open spec fn case_view(c: CalibrationCase) -> (usize, Seq<TokenId>) {
    (c.piece_len, c.input_ids@)
}

pub open spec fn cases_view(cases: Seq<CalibrationCase>) -> Seq<(usize, Seq<TokenId>)> {
    cases.map_values(|c: CalibrationCase| case_view(c))
}

/// Probe `j` takes a case from a file of `n` bytes.
pub open spec fn takes(n: int, lengths: Seq<usize>, cases_per_length: usize, counts: Seq<usize>, j: int) -> bool {
    counts[j] < cases_per_length && lengths[j] <= n
}

/// The counts and the cases a file adds, after probes `0..k`.
pub open spec fn file_step(
    bytes: Seq<u8>,
    lengths: Seq<usize>,
    cases_per_length: usize,
    table: Seq<Option<TokenId>>,
    counts: Seq<usize>,
    k: int,
) -> (Seq<usize>, Seq<(usize, Seq<TokenId>)>)
    decreases k,
{
    if k <= 0 {
        (counts, Seq::empty())
    } else {
        let (c, added) = file_step(bytes, lengths, cases_per_length, table, counts, k - 1);
        if takes(bytes.len() as int, lengths, cases_per_length, counts, k - 1) {
            (
                c.update(k - 1, (counts[k - 1] + 1) as usize),
                added.push((lengths[k - 1], mapped_ids(bytes.take(lengths[k - 1] as int), table))),
            )
        } else {
            (c, added)
        }
    }
}

/// Every probe before `k` that the file feeds finds an id for each byte.
pub open spec fn file_mapped(
    bytes: Seq<u8>,
    lengths: Seq<usize>,
    cases_per_length: usize,
    table: Seq<Option<TokenId>>,
    counts: Seq<usize>,
    k: int,
) -> bool {
    forall|j: int|
        0 <= j < k && takes(bytes.len() as int, lengths, cases_per_length, counts, j) ==> all_mapped(
            #[trigger] bytes.take(lengths[j] as int),
            table,
        )
}

/// Adds one file's cases: each probe length, in order, that still lacks
/// cases and that the file is long enough for takes the file's leading bytes
/// of that length. Fails on the first such piece with a byte that has no id.
pub fn add_file_cases(
    bytes: &[u8],
    probe_lengths: &[usize],
    cases_per_length: usize,
    table: &Vec<Option<TokenId>>,
    counts: &mut Vec<usize>,
    cases: &mut Vec<CalibrationCase>,
) -> (result: Result<(), String>)
    requires
        old(counts).len() == probe_lengths.len(),
        table.len() == 256,
    ensures
        final(counts).len() == probe_lengths.len(),
        match result {
            Ok(()) => {
                &&& file_mapped(bytes@, probe_lengths@, cases_per_length, table@, old(counts)@, probe_lengths.len() as int)
                &&& final(counts)@ == file_step(bytes@, probe_lengths@, cases_per_length, table@, old(counts)@, probe_lengths.len() as int).0
                &&& cases_view(final(cases)@) == cases_view(old(cases)@) + file_step(
                    bytes@,
                    probe_lengths@,
                    cases_per_length,
                    table@,
                    old(counts)@,
                    probe_lengths.len() as int,
                ).1
            },
            Err(msg) => exists|j: int, i: int|
                0 <= j < probe_lengths.len() && takes(bytes.len() as int, probe_lengths@, cases_per_length, old(counts)@, j)
                    && file_mapped(bytes@, probe_lengths@, cases_per_length, table@, old(counts)@, j)
                    && is_first_unmapped(bytes@.take(probe_lengths@[j] as int), table@, i)
                    && msg@ == missing_byte_message(bytes@[i]),
        },
{
    let ghost start = old(counts)@;
    let ghost start_cases = cases_view(cases@);
    let mut k: usize = 0;
    while k < probe_lengths.len()
        invariant
            k <= probe_lengths.len(),
            counts.len() == probe_lengths.len(),
            table.len() == 256,
            start.len() == probe_lengths.len(),
            start == old(counts)@,
            forall|j: int| k <= j < counts.len() ==> #[trigger] counts@[j] == start[j],
            file_mapped(bytes@, probe_lengths@, cases_per_length, table@, start, k as int),
            forall|j: int| 0 <= j < k ==> #[trigger] counts@[j] == file_step(bytes@, probe_lengths@, cases_per_length, table@, start, k as int).0[j],
            file_step(bytes@, probe_lengths@, cases_per_length, table@, start, k as int).0.len() == start.len(),
            forall|j: int| k <= j < start.len() ==> #[trigger] file_step(bytes@, probe_lengths@, cases_per_length, table@, start, k as int).0[j] == start[j],
            cases_view(cases@) == start_cases + file_step(bytes@, probe_lengths@, cases_per_length, table@, start, k as int).1,
        decreases probe_lengths.len() - k,
    {
        let ghost prev = file_step(bytes@, probe_lengths@, cases_per_length, table@, start, k as int);
        let piece_len = probe_lengths[k];
        if counts[k] < cases_per_length && piece_len <= bytes.len() {
            let ids = match piece_ids(bytes, piece_len, table) {
                Ok(ids) => ids,
                Err(msg) => {
                    proof {
                        assert(counts@[k as int] == start[k as int]);
                        assert(takes(bytes.len() as int, probe_lengths@, cases_per_length, start, k as int));
                        let i = choose|i: int|
                            is_first_unmapped(bytes@.take(piece_len as int), table@, i) && msg@
                                == missing_byte_message(bytes@[i]);
                        assert(probe_lengths@[k as int] == piece_len);
                        assert(file_mapped(bytes@, probe_lengths@, cases_per_length, table@, start, k as int));
                        assert(is_first_unmapped(bytes@.take(probe_lengths@[k as int] as int), table@, i));
                    }
                    return Err(msg);
                },
            };
            let ghost before = cases@;
            cases.push(CalibrationCase::new(piece_len, ids));
            let next = counts[k] + 1;
            counts.set(k, next);
            proof {
                assert(cases_view(cases@) =~= cases_view(before).push((piece_len, mapped_ids(bytes@.take(piece_len as int), table@))));
                let now = file_step(bytes@, probe_lengths@, cases_per_length, table@, start, k + 1);
                assert(now.0 == prev.0.update(k as int, (start[k as int] + 1) as usize));
                assert forall|j: int| 0 <= j < k + 1 implies #[trigger] counts@[j] == now.0[j] by {
                    if j < k {
                        assert(counts@[j] == prev.0[j]);
                    }
                }
                assert forall|j: int| 0 <= j < k + 1 && takes(bytes.len() as int, probe_lengths@, cases_per_length, start, j) implies all_mapped(
                    #[trigger] bytes@.take(probe_lengths@[j] as int), table@) by {
                    if j < k {
                        assert(file_mapped(bytes@, probe_lengths@, cases_per_length, table@, start, k as int));
                    }
                }
            }
        } else {
            proof {
                let now = file_step(bytes@, probe_lengths@, cases_per_length, table@, start, k + 1);
                assert(now == prev);
            }
        }
        k = k + 1;
    }
    proof {
        let fin = file_step(bytes@, probe_lengths@, cases_per_length, table@, start, probe_lengths.len() as int);
        assert(counts@ =~= fin.0);
    }
    Ok(())
}

/// Every probe length has its quota of cases.
pub fn quotas_met(counts: &[usize], cases_per_length: usize) -> (met: bool)
    ensures
        met == forall|j: int| 0 <= j < counts.len() ==> counts@[j] >= cases_per_length,
{
    let mut j: usize = 0;
    while j < counts.len()
        invariant
            j <= counts.len(),
            forall|i: int| 0 <= i < j ==> counts@[i] >= cases_per_length,
        decreases counts.len() - j,
    {
        if counts[j] < cases_per_length {
            return false;
        }
        j = j + 1;
    }
    true
}

/// The message for a probe length that no file was long enough for.
pub open spec fn empty_probe_message(len: usize) -> Seq<char> {
    "no corpus file was large enough for probe length "@ + decimal_chars(len as nat)
}

/// Every probe length got at least one case; otherwise the first that got
/// none is reported.
pub fn check_probe_coverage(counts: &[usize], probe_lengths: &[usize]) -> (result: Result<(), String>)
    requires
        counts.len() == probe_lengths.len(),
    ensures
        match result {
            Ok(()) => forall|j: int| 0 <= j < counts.len() ==> counts@[j] != 0,
            Err(msg) => exists|j: int|
                0 <= j < counts.len() && counts@[j] == 0 && (forall|i: int| 0 <= i < j ==> counts@[i] != 0)
                    && msg@ == empty_probe_message(probe_lengths@[j]),
        },
{
    let mut j: usize = 0;
    while j < counts.len()
        invariant
            counts.len() == probe_lengths.len(),
            j <= counts.len(),
            forall|i: int| 0 <= i < j ==> counts@[i] != 0,
        decreases counts.len() - j,
    {
        if counts[j] == 0 {
            let mut msg = String::new();
            push_str(&mut msg, "no corpus file was large enough for probe length ");
            push_decimal(&mut msg, probe_lengths[j] as u64);
            return Err(msg);
        }
        j = j + 1;
    }
    Ok(())
}

} // verus!
