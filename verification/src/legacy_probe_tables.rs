//! Tables of the historical parallel-merge probes, read from a byte-level
//! tokenizer artifact.
//!
//! A probe accepts only byte-level reversible artifacts whose merge semantics
//! are absent or historical. It takes the base id of every byte unit from the
//! vocabulary and the merge rules, each written as three whitespace-separated
//! ids, from the merge list; a pair may have one rule only. Each refusal is a
//! message naming the first offending item.

use std::collections::BTreeMap;

use vstd::prelude::*;

use crate::bpe_semantics::{MergeTriple, TokenId};
use crate::byte_units::spec_byte_unit;
use crate::cli_inputs::push_str;
use crate::decimal_text::{decimal_chars, push_decimal};
use crate::elastic_id::{PackedRule, PairKey, lemma_pack_roundtrip, pack_u32_pair};
use crate::elastic_profile_store::{CANONICAL_BPE_SEMANTICS_V1, same_text};
use crate::legacy_parallel_bpe::{PairMerges, packed_rules, parallel_fixpoint};
use crate::elastic_text_tokenizer::{
    BYTE_LEVEL_V2, LEGACY_BPE_SEMANTICS_V1, MergesField, artifact_items, TokenizerArtifact, VocabField, byte_key,
    byte_key_string, chars_of, find_id, lookup, parse_usize, parse_usize_word, split_words,
    whitespace_words,
};

verus! {

/// The tables a legacy probe runs on.
pub struct LegacyProbeTables {
    /// Base id of every byte, indexed by byte.
    pub byte_ids: Vec<TokenId>,
    /// Merge output of every `(left, right)` pair that has a rule.
    pub merges: BTreeMap<(TokenId, TokenId), TokenId>,
    /// The same rules keyed by packed 32-bit pairs, when the probe asks for
    /// packed rules; empty otherwise.
    pub packed: BTreeMap<u64, u32>,
}

/// Options of one probe's reader.
pub struct ProbeOptions {
    /// The probe's name, used in its messages.
    pub name: String,
    /// Byte ids must fit in 32 bits.
    pub compact_byte_ids: bool,
    /// Rule ids must fit the packed 32-bit key and output.
    pub packed_rules: bool,
    /// The words before the pair in a duplicate-rule message.
    pub duplicate_label: String,
}

pub open spec fn message_at(index: nat, rest: Seq<char>) -> Seq<char> {
    "merge rule "@ + decimal_chars(index) + rest
}

/// The first problem of rule field `k` (left, right, output), if any.
pub open spec fn field_error(words: Seq<Seq<char>>, index: nat, k: int, field: Seq<char>) -> Option<Seq<char>> {
    if words.len() <= k {
        Some(message_at(index, " missing "@ + field))
    } else if parse_usize(words[k]) is None {
        Some(message_at(index, " has invalid "@ + field))
    } else {
        None
    }
}

/// The ids of a well-formed rule.
pub open spec fn rule_of(text: Seq<char>) -> MergeTriple {
    let w = whitespace_words(text);
    (parse_usize(w[0]).unwrap(), parse_usize(w[1]).unwrap(), parse_usize(w[2]).unwrap())
}

/// The first problem of merge item `index`, if any.
pub open spec fn item_error(item: Option<String>, index: nat, packed: bool) -> Option<Seq<char>> {
    match item {
        None => Some(message_at(index, " is not a string"@)),
        Some(text) => {
            let w = whitespace_words(text@);
            let r = rule_of(text@);
            if field_error(w, index, 0, "left"@) is Some {
                field_error(w, index, 0, "left"@)
            } else if field_error(w, index, 1, "right"@) is Some {
                field_error(w, index, 1, "right"@)
            } else if field_error(w, index, 2, "output"@) is Some {
                field_error(w, index, 2, "output"@)
            } else if w.len() > 3 {
                Some(message_at(index, " has extra fields"@))
            } else if packed && (r.0 > u32::MAX || r.1 > u32::MAX) {
                Some(
                    message_at(
                        index,
                        ": token id "@ + decimal_chars((if r.0 > u32::MAX { r.0 } else { r.1 }) as nat)
                            + " exceeds the compact u32 domain"@,
                    ),
                )
            } else if packed && r.2 > u32::MAX {
                Some(message_at(index, " output "@ + decimal_chars(r.2 as nat) + " exceeds u32"@))
            } else {
                None
            }
        },
    }
}

/// The rules of the first `k` merge items, or the first refusal among them.
pub open spec fn rules_outcome(
    items: Seq<Option<String>>,
    packed: bool,
    duplicate_label: Seq<char>,
    k: int,
) -> Result<Map<(TokenId, TokenId), TokenId>, Seq<char>>
    decreases k,
{
    if k <= 0 {
        Ok(Map::empty())
    } else {
        match rules_outcome(items, packed, duplicate_label, k - 1) {
            Err(e) => Err(e),
            Ok(m) => match item_error(items[k - 1], (k - 1) as nat, packed) {
                Some(e) => Err(e),
                None => {
                    let r = rule_of(items[k - 1].unwrap()@);
                    if m.contains_key((r.0, r.1)) {
                        Err(
                            duplicate_label + " ("@ + decimal_chars(r.0 as nat) + ", "@ + decimal_chars(
                                r.1 as nat,
                            ) + ")"@,
                        )
                    } else {
                        Ok(m.insert((r.0, r.1), r.2))
                    }
                },
            },
        }
    }
}

/// The byte ids of bytes `0..k`, or the first refusal among them.
pub open spec fn byte_ids_outcome(entries: Seq<(String, TokenId)>, compact: bool, k: int) -> Result<Seq<TokenId>, Seq<char>>
    decreases k,
{
    if k <= 0 {
        Ok(Seq::empty())
    } else {
        match byte_ids_outcome(entries, compact, k - 1) {
            Err(e) => Err(e),
            Ok(ids) => {
                let b = (k - 1) as u8;
                match lookup(entries, seq![spec_byte_unit(b)]) {
                    None => Err("tokenizer missing byte token "@ + decimal_chars(b as nat)),
                    Some(id) => if compact && id > u32::MAX {
                        Err(
                            "byte token "@ + decimal_chars(b as nat) + " id "@ + decimal_chars(id as nat)
                                + " exceeds u32"@,
                        )
                    } else {
                        Ok(ids.push(id))
                    },
                }
            },
        }
    }
}

/// What a probe reads from an artifact: the byte ids and the rules, or the
/// first refusal.
pub open spec fn probe_outcome(
    a: TokenizerArtifact,
    name: Seq<char>,
    compact: bool,
    packed: bool,
    duplicate_label: Seq<char>,
) -> Result<(Seq<TokenId>, Map<(TokenId, TokenId), TokenId>), Seq<char>> {
    if !(a.version matches Some(v) && v@ == BYTE_LEVEL_V2@) {
        Err(name + " requires version=byte_level_v2"@)
    } else if a.merge_semantics matches Some(s) && s@ != LEGACY_BPE_SEMANTICS_V1@ {
        Err(name + " rejects merge_semantics="@ + a.merge_semantics.unwrap()@)
    } else {
        match a.vocab {
            VocabField::Missing => Err("tokenizer missing vocab"@),
            VocabField::Invalid(m) => Err(m@),
            VocabField::Entries(entries) => match byte_ids_outcome(entries@, compact, 256) {
                Err(e) => Err(e),
                Ok(ids) => match a.merges {
                    MergesField::Items(items) => match rules_outcome(items@, packed, duplicate_label, items.len() as int) {
                        Err(e) => Err(e),
                        Ok(m) => Ok((ids, m)),
                    },
                    _ => Err("tokenizer missing merges array"@),
                },
            },
        }
    }
}


fn rule_message(index: usize, rest: &str) -> (msg: String)
    ensures
        msg@ == message_at(index as nat, rest@),
{
    let mut msg = String::new();
    push_str(&mut msg, "merge rule ");
    push_decimal(&mut msg, index as u64);
    push_str(&mut msg, rest);
    msg
}

fn read_field(words: &Vec<Vec<char>>, index: usize, k: usize, field: &str) -> (result: Result<usize, String>)
    requires
        k < 3,
    ensures
        match result {
            Ok(v) => field_error(words@.map_values(|w: Vec<char>| w@), index as nat, k as int, field@) is None
                && parse_usize(words@[k as int]@) == Some(v),
            Err(msg) => field_error(words@.map_values(|w: Vec<char>| w@), index as nat, k as int, field@) == Some(msg@),
        },
{
    let ghost ws = words@.map_values(|w: Vec<char>| w@);
    if words.len() <= k {
        let mut rest = String::new();
        push_str(&mut rest, " missing ");
        push_str(&mut rest, field);
        return Err(rule_message(index, rest.as_str()));
    }
    assert(ws[k as int] == words@[k as int]@);
    match parse_usize_word(&words[k]) {
        Some(v) => Ok(v),
        None => {
            let mut rest = String::new();
            push_str(&mut rest, " has invalid ");
            push_str(&mut rest, field);
            Err(rule_message(index, rest.as_str()))
        },
    }
}

/// Reads merge item `index`.
fn read_item(item: &Option<String>, index: usize, packed: bool) -> (result: Result<MergeTriple, String>)
    ensures
        match result {
            Ok(r) => item_error(*item, index as nat, packed) is None && r == rule_of(item.unwrap()@),
            Err(msg) => item_error(*item, index as nat, packed) == Some(msg@),
        },
{
    let text = match item {
        None => {
            return Err(rule_message(index, " is not a string"));
        },
        Some(text) => text,
    };
    let chars = chars_of(text.as_str());
    let words = split_words(&chars);
    let ghost ws = words@.map_values(|w: Vec<char>| w@);
    assert(ws == whitespace_words(text@));
    let left = read_field(&words, index, 0, "left")?;
    let right = read_field(&words, index, 1, "right")?;
    let output = read_field(&words, index, 2, "output")?;
    if words.len() > 3 {
        return Err(rule_message(index, " has extra fields"));
    }
    proof {
        assert(ws[0] == words@[0]@ && ws[1] == words@[1]@ && ws[2] == words@[2]@);
    }
    if packed && (left > u32::MAX as usize || right > u32::MAX as usize) {
        let wide = if left > u32::MAX as usize { left } else { right };
        let mut rest = String::new();
        push_str(&mut rest, ": token id ");
        push_decimal(&mut rest, wide as u64);
        push_str(&mut rest, " exceeds the compact u32 domain");
        return Err(rule_message(index, rest.as_str()));
    }
    if packed && output > u32::MAX as usize {
        let mut rest = String::new();
        push_str(&mut rest, " output ");
        push_decimal(&mut rest, output as u64);
        push_str(&mut rest, " exceeds u32");
        return Err(rule_message(index, rest.as_str()));
    }
    Ok((left, right, output))
}

/// Inserting a rule under its packed key keeps the packed map describing
/// the same rules as the wide map.
proof fn lemma_packed_insert(
    packed: Map<u64, u32>,
    wide: Map<(TokenId, TokenId), TokenId>,
    left: TokenId,
    right: TokenId,
    output: TokenId,
)
    requires
        packed_rules(packed) == wide,
        left <= u32::MAX,
        right <= u32::MAX,
        output <= u32::MAX,
    ensures
        packed_rules(packed.insert(pack_u32_pair(left as u32, right as u32), output as u32)) == wide.insert(
            (left, right),
            output,
        ),
{
    let key = pack_u32_pair(left as u32, right as u32);
    let after = packed.insert(key, output as u32);
    lemma_pack_roundtrip(left as u32, right as u32);
    assert forall|p: (TokenId, TokenId)| #[trigger] packed_rules(after).contains_key(p) <==> wide.insert((left, right), output).contains_key(p) by {
        if p.0 <= u32::MAX && p.1 <= u32::MAX {
            lemma_pack_roundtrip(p.0 as u32, p.1 as u32);
            if pack_u32_pair(p.0 as u32, p.1 as u32) == key {
                assert(p.0 == left && p.1 == right);
            } else {
                assert(packed_rules(packed).contains_key(p) == packed.contains_key(pack_u32_pair(p.0 as u32, p.1 as u32)));
            }
        } else {
            assert(!packed_rules(packed).contains_key(p));
        }
    }
    assert forall|p: (TokenId, TokenId)| #[trigger] packed_rules(after).contains_key(p) implies packed_rules(after)[p] == wide.insert((left, right), output)[p] by {
        lemma_pack_roundtrip(p.0 as u32, p.1 as u32);
        if pack_u32_pair(p.0 as u32, p.1 as u32) == key {
            assert(p.0 == left && p.1 == right);
        } else {
            assert(packed_rules(packed).contains_key(p));
        }
    }
    assert(packed_rules(after) =~= wide.insert((left, right), output));
}

/// Id pairs and `u64` words order a `BTreeMap` lawfully.
pub open spec fn keys_lawful() -> bool {
    vstd::laws_cmp::obeys_cmp::<(TokenId, TokenId)>() && vstd::laws_cmp::obeys_cmp::<u64>()
}

proof fn lemma_keys_lawful()
    ensures
        keys_lawful(),
{
    broadcast use vstd::laws_cmp::group_laws_cmp;
}

/// A refusal among the first `k` items stays the outcome of any longer prefix.
proof fn lemma_rules_refusal_stays(
    items: Seq<Option<String>>,
    packed: bool,
    duplicate_label: Seq<char>,
    k: int,
    n: int,
)
    requires
        0 <= k <= n,
        rules_outcome(items, packed, duplicate_label, k) is Err,
    ensures
        rules_outcome(items, packed, duplicate_label, n) == rules_outcome(items, packed, duplicate_label, k),
    decreases n - k,
{
    if k < n {
        lemma_rules_refusal_stays(items, packed, duplicate_label, k, n - 1);
    }
}

/// A refusal among the first `k` bytes stays the outcome of any longer prefix.
proof fn lemma_bytes_refusal_stays(entries: Seq<(String, TokenId)>, compact: bool, k: int, n: int)
    requires
        0 <= k <= n,
        byte_ids_outcome(entries, compact, k) is Err,
    ensures
        byte_ids_outcome(entries, compact, n) == byte_ids_outcome(entries, compact, k),
    decreases n - k,
{
    if k < n {
        lemma_bytes_refusal_stays(entries, compact, k, n - 1);
    }
}

fn read_rules(items: &Vec<Option<String>>, packed: bool, duplicate_label: &str) -> (result: Result<
    (BTreeMap<(TokenId, TokenId), TokenId>, BTreeMap<u64, u32>),
    String,
>)
    ensures
        match result {
            Ok((m, pm)) => rules_outcome(items@, packed, duplicate_label@, items.len() as int) == Ok::<
                Map<(TokenId, TokenId), TokenId>,
                Seq<char>,
            >(m@) && (if packed { packed_rules(pm@) == m@ } else { pm@ == Map::<u64, u32>::empty() }),
            Err(msg) => rules_outcome(items@, packed, duplicate_label@, items.len() as int) == Err::<
                Map<(TokenId, TokenId), TokenId>,
                Seq<char>,
            >(msg@),
        },
{
    broadcast use vstd::std_specs::btree::group_btree_axioms;
    let mut merges: BTreeMap<(TokenId, TokenId), TokenId> = BTreeMap::new();
    let mut packed_map: BTreeMap<u64, u32> = BTreeMap::new();
    proof {
        lemma_keys_lawful();
        assert(packed_rules(packed_map@) =~= merges@);
    }
    let mut index: usize = 0;
    while index < items.len()
        invariant
            index <= items.len(),
            keys_lawful(),
            rules_outcome(items@, packed, duplicate_label@, index as int) == Ok::<
                Map<(TokenId, TokenId), TokenId>,
                Seq<char>,
            >(merges@),
            packed ==> packed_rules(packed_map@) == merges@,
            packed ==> forall|p: (TokenId, TokenId)| #[trigger] merges@.contains_key(p) ==> p.0 <= u32::MAX && p.1 <= u32::MAX,
            !packed ==> packed_map@ == Map::<u64, u32>::empty(),
        decreases items.len() - index,
    {
        let r = match read_item(&items[index], index, packed) {
            Ok(r) => r,
            Err(msg) => {
                proof {
                    lemma_rules_refusal_stays(items@, packed, duplicate_label@, index + 1, items.len() as int);
                }
                return Err(msg);
            },
        };
        let (left, right, output) = r;
        if merges.contains_key(&(left, right)) {
            let mut msg = String::new();
            push_str(&mut msg, duplicate_label);
            push_str(&mut msg, " (");
            push_decimal(&mut msg, left as u64);
            push_str(&mut msg, ", ");
            push_decimal(&mut msg, right as u64);
            push_str(&mut msg, ")");
            proof {
                assert(msg@ =~= duplicate_label@ + " ("@ + decimal_chars(left as nat) + ", "@ + decimal_chars(
                    right as nat,
                ) + ")"@);
                lemma_rules_refusal_stays(items@, packed, duplicate_label@, index + 1, items.len() as int);
            }
            return Err(msg);
        }
        let ghost before = merges@;
        let ghost packed_before = packed_map@;
        merges.insert((left, right), output);
        if packed {
            let key = PairKey::new(left as u32, right as u32);
            packed_map.insert(key.raw(), output as u32);
            proof {
                lemma_packed_insert(packed_before, before, left, right, output);
            }
        }
        index = index + 1;
    }
    Ok((merges, packed_map))
}

fn read_byte_ids(entries: &Vec<(String, TokenId)>, compact: bool) -> (result: Result<Vec<TokenId>, String>)
    ensures
        match result {
            Ok(ids) => byte_ids_outcome(entries@, compact, 256) == Ok::<Seq<TokenId>, Seq<char>>(ids@),
            Err(msg) => byte_ids_outcome(entries@, compact, 256) == Err::<Seq<TokenId>, Seq<char>>(msg@),
        },
{
    let mut ids: Vec<TokenId> = Vec::new();
    let mut b: usize = 0;
    while b < 256
        invariant
            b <= 256,
            byte_ids_outcome(entries@, compact, b as int) == Ok::<Seq<TokenId>, Seq<char>>(ids@),
        decreases 256 - b,
    {
        let byte = b as u8;
        let key = byte_key_string(byte, true);
        assert(byte_key(byte, true) == seq![spec_byte_unit(byte)]);
        match find_id(entries, key.as_str()) {
            None => {
                let mut msg = String::new();
                push_str(&mut msg, "tokenizer missing byte token ");
                push_decimal(&mut msg, byte as u64);
                proof {
                    assert(msg@ =~= "tokenizer missing byte token "@ + decimal_chars(byte as nat));
                    lemma_bytes_refusal_stays(entries@, compact, b + 1, 256);
                }
                return Err(msg);
            },
            Some(id) => {
                if compact && id > u32::MAX as usize {
                    let mut msg = String::new();
                    push_str(&mut msg, "byte token ");
                    push_decimal(&mut msg, byte as u64);
                    push_str(&mut msg, " id ");
                    push_decimal(&mut msg, id as u64);
                    push_str(&mut msg, " exceeds u32");
                    proof {
                        assert(msg@ =~= "byte token "@ + decimal_chars(byte as nat) + " id "@ + decimal_chars(id as nat)
                            + " exceeds u32"@);
                        lemma_bytes_refusal_stays(entries@, compact, b + 1, 256);
                    }
                    return Err(msg);
                }
                ids.push(id);
            },
        }
        b = b + 1;
    }
    Ok(ids)
}

/// Reads a legacy probe's tables from an artifact; see [`probe_outcome`].
pub fn load_legacy_probe(artifact: &TokenizerArtifact, options: &ProbeOptions) -> (result: Result<LegacyProbeTables, String>)
    ensures
        match result {
            Ok(t) => probe_outcome(
                *artifact,
                options.name@,
                options.compact_byte_ids,
                options.packed_rules,
                options.duplicate_label@,
            ) == Ok::<(Seq<TokenId>, Map<(TokenId, TokenId), TokenId>), Seq<char>>((t.byte_ids@, t.merges@))
                && (if options.packed_rules {
                packed_rules(t.packed@) == t.merges@
            } else {
                t.packed@ == Map::<u64, u32>::empty()
            }),
            Err(msg) => probe_outcome(
                *artifact,
                options.name@,
                options.compact_byte_ids,
                options.packed_rules,
                options.duplicate_label@,
            ) == Err::<(Seq<TokenId>, Map<(TokenId, TokenId), TokenId>), Seq<char>>(msg@),
        },
{
    let reversible = match &artifact.version {
        Some(v) => same_text(v.as_str(), BYTE_LEVEL_V2),
        None => false,
    };
    if !reversible {
        let mut msg = String::new();
        push_str(&mut msg, options.name.as_str());
        push_str(&mut msg, " requires version=byte_level_v2");
        return Err(msg);
    }
    if let Some(semantics) = &artifact.merge_semantics {
        if !same_text(semantics.as_str(), LEGACY_BPE_SEMANTICS_V1) {
            let mut msg = String::new();
            push_str(&mut msg, options.name.as_str());
            push_str(&mut msg, " rejects merge_semantics=");
            push_str(&mut msg, semantics.as_str());
            return Err(msg);
        }
    }
    let entries = match &artifact.vocab {
        VocabField::Missing => {
            let mut msg = String::new();
            push_str(&mut msg, "tokenizer missing vocab");
            return Err(msg);
        },
        VocabField::Invalid(m) => {
            return Err(m.clone());
        },
        VocabField::Entries(entries) => entries,
    };
    let byte_ids = read_byte_ids(entries, options.compact_byte_ids)?;
    let items = match &artifact.merges {
        MergesField::Items(items) => items,
        _ => {
            let mut msg = String::new();
            push_str(&mut msg, "tokenizer missing merges array");
            return Err(msg);
        },
    };
    let (merges, packed) = read_rules(items, options.packed_rules, options.duplicate_label.as_str())?;
    Ok(LegacyProbeTables { byte_ids, merges, packed })
}


/// `str::parse::<u32>`.
pub open spec fn parse_u32(word: Seq<char>) -> Option<u32> {
    match parse_usize(word) {
        Some(v) => if v <= u32::MAX {
            Some(v as u32)
        } else {
            None
        },
        None => None,
    }
}

/// The first problem of 32-bit rule field `k`, if any.
pub open spec fn field_error_u32(words: Seq<Seq<char>>, rank: nat, k: int, field: Seq<char>) -> Option<Seq<char>> {
    if words.len() <= k {
        Some(message_at(rank, " missing "@ + field))
    } else if parse_u32(words[k]) is None {
        Some(message_at(rank, " has invalid "@ + field))
    } else {
        None
    }
}

/// The first problem of canonical merge item `rank`, if any.
#[verifier::opaque]
pub open spec fn canonical_item_error(item: Option<String>, rank: nat) -> Option<Seq<char>> {
    match item {
        None => Some(message_at(rank, " is not a string"@)),
        Some(text) => {
            let w = whitespace_words(text@);
            if field_error_u32(w, rank, 0, "left"@) is Some {
                field_error_u32(w, rank, 0, "left"@)
            } else if field_error_u32(w, rank, 1, "right"@) is Some {
                field_error_u32(w, rank, 1, "right"@)
            } else if field_error_u32(w, rank, 2, "output"@) is Some {
                field_error_u32(w, rank, 2, "output"@)
            } else if w.len() > 3 {
                Some(message_at(rank, " has extra fields"@))
            } else if rank > u32::MAX {
                Some("merge rank exceeds u32"@)
            } else {
                None
            }
        },
    }
}

/// The packed entry of a well-formed canonical rule of rank `rank`.
pub open spec fn canonical_entry(text: Seq<char>, rank: nat) -> (u64, u32, u32) {
    let w = whitespace_words(text);
    (
        pack_u32_pair(parse_u32(w[0]).unwrap(), parse_u32(w[1]).unwrap()),
        rank as u32,
        parse_u32(w[2]).unwrap(),
    )
}

/// What a canonical rule probe reads: the number of vocabulary keys, when
/// the probe needs the vocabulary, and each rule as its packed pair key,
/// rank and output, in rank order; or the first refusal.
pub open spec fn canonical_probe_outcome(
    a: TokenizerArtifact,
    name: Seq<char>,
    needs_vocab: bool,
    vocab_keys: Option<usize>,
) -> Result<Seq<(u64, u32, u32)>, Seq<char>> {
    let items = artifact_items(a);
    if !(a.merge_semantics matches Some(s) && s@ == CANONICAL_BPE_SEMANTICS_V1@) {
        Err(name + " requires merge_semantics=canonical-rank-v1"@)
    } else if needs_vocab && vocab_keys is None {
        Err("tokenizer missing vocab object"@)
    } else if !(a.merges is Items) {
        Err("tokenizer missing merges array"@)
    } else if exists|r: int| 0 <= r < items.len() && canonical_item_error(items[r], r as nat) is Some {
        let r = choose|r: int|
            0 <= r < items.len() && canonical_item_error(items[r], r as nat) is Some && forall|q: int|
                0 <= q < r ==> canonical_item_error(#[trigger] items[q], q as nat) is None;
        Err(canonical_item_error(items[r], r as nat).unwrap())
    } else {
        Ok(Seq::new(items.len(), |r: int| canonical_entry(items[r].unwrap()@, r as nat)))
    }
}

/// A rule entry as its packed key, rank and output.
pub open spec fn entry_view(e: (PairKey, PackedRule)) -> (u64, u32, u32) {
    (e.0.spec_raw(), e.1.spec_rank(), e.1.spec_output())
}

/// The refusal of a canonical probe is the one of its first bad item.
proof fn lemma_first_bad_item(items: Seq<Option<String>>, rank: int)
    requires
        0 <= rank < items.len(),
        forall|q: int| 0 <= q < rank ==> canonical_item_error(#[trigger] items[q], q as nat) is None,
        canonical_item_error(items[rank], rank as nat) is Some,
    ensures
        (choose|r: int|
            0 <= r < items.len() && canonical_item_error(items[r], r as nat) is Some && forall|q: int|
                0 <= q < r ==> canonical_item_error(#[trigger] items[q], q as nat) is None) == rank,
{
    let r = choose|r: int|
        0 <= r < items.len() && canonical_item_error(items[r], r as nat) is Some && forall|q: int|
            0 <= q < r ==> canonical_item_error(#[trigger] items[q], q as nat) is None;
    assert(canonical_item_error(items[rank], rank as nat) is Some);
    if r < rank {
        assert(canonical_item_error(items[r], r as nat) is None);
    } else if r > rank {
        assert(canonical_item_error(items[rank], rank as nat) is None);
    }
}

fn read_field_u32(words: &Vec<Vec<char>>, rank: usize, k: usize, field: &str) -> (result: Result<u32, String>)
    requires
        k < 3,
    ensures
        match result {
            Ok(v) => field_error_u32(words@.map_values(|w: Vec<char>| w@), rank as nat, k as int, field@) is None
                && parse_u32(words@[k as int]@) == Some(v),
            Err(msg) => field_error_u32(words@.map_values(|w: Vec<char>| w@), rank as nat, k as int, field@)
                == Some(msg@),
        },
{
    let ghost ws = words@.map_values(|w: Vec<char>| w@);
    if words.len() <= k {
        let mut rest = String::new();
        push_str(&mut rest, " missing ");
        push_str(&mut rest, field);
        return Err(rule_message(rank, rest.as_str()));
    }
    assert(ws[k as int] == words@[k as int]@);
    match parse_usize_word(&words[k]) {
        Some(v) => {
            if v <= u32::MAX as usize {
                return Ok(v as u32);
            }
        },
        None => {},
    }
    let mut rest = String::new();
    push_str(&mut rest, " has invalid ");
    push_str(&mut rest, field);
    Err(rule_message(rank, rest.as_str()))
}

fn read_canonical_item(item: &Option<String>, rank: usize) -> (result: Result<(PairKey, PackedRule), String>)
    ensures
        match result {
            Ok((key, rule)) => canonical_item_error(*item, rank as nat) is None && (
                key.spec_raw(),
                rule.spec_rank(),
                rule.spec_output(),
            ) == canonical_entry(item.unwrap()@, rank as nat),
            Err(msg) => canonical_item_error(*item, rank as nat) == Some(msg@),
        },
{
    reveal(canonical_item_error);
    let text = match item {
        None => {
            return Err(rule_message(rank, " is not a string"));
        },
        Some(text) => text,
    };
    let chars = chars_of(text.as_str());
    let words = split_words(&chars);
    let ghost ws = words@.map_values(|w: Vec<char>| w@);
    assert(ws == whitespace_words(text@));
    let left = read_field_u32(&words, rank, 0, "left")?;
    let right = read_field_u32(&words, rank, 1, "right")?;
    let output = read_field_u32(&words, rank, 2, "output")?;
    if words.len() > 3 {
        return Err(rule_message(rank, " has extra fields"));
    }
    proof {
        assert(ws[0] == words@[0]@ && ws[1] == words@[1]@ && ws[2] == words@[2]@);
    }
    if rank > u32::MAX as usize {
        let mut msg = String::new();
        push_str(&mut msg, "merge rank exceeds u32");
        return Err(msg);
    }
    Ok((PairKey::new(left, right), PackedRule::new(rank as u32, output)))
}

/// Reads the rules of a canonical rule probe; see [`canonical_probe_outcome`].
/// `vocab_keys` is the number of keys of the vocabulary when it is an object.
pub fn load_canonical_probe(
    artifact: &TokenizerArtifact,
    name: &str,
    needs_vocab: bool,
    vocab_keys: Option<usize>,
) -> (result: Result<Vec<(PairKey, PackedRule)>, String>)
    ensures
        match result {
            Ok(entries) => canonical_probe_outcome(*artifact, name@, needs_vocab, vocab_keys) == Ok::<
                Seq<(u64, u32, u32)>,
                Seq<char>,
            >(entries@.map_values(|e: (PairKey, PackedRule)| entry_view(e))),
            Err(msg) => canonical_probe_outcome(*artifact, name@, needs_vocab, vocab_keys) == Err::<
                Seq<(u64, u32, u32)>,
                Seq<char>,
            >(msg@),
        },
{
    let canonical = match &artifact.merge_semantics {
        Some(s) => same_text(s.as_str(), CANONICAL_BPE_SEMANTICS_V1),
        None => false,
    };
    if !canonical {
        let mut msg = String::new();
        push_str(&mut msg, name);
        push_str(&mut msg, " requires merge_semantics=canonical-rank-v1");
        return Err(msg);
    }
    if needs_vocab && vocab_keys.is_none() {
        let mut msg = String::new();
        push_str(&mut msg, "tokenizer missing vocab object");
        return Err(msg);
    }
    let items = match &artifact.merges {
        MergesField::Items(items) => items,
        _ => {
            let mut msg = String::new();
            push_str(&mut msg, "tokenizer missing merges array");
            return Err(msg);
        },
    };
    let mut entries: Vec<(PairKey, PackedRule)> = Vec::new();
    let mut rank: usize = 0;
    while rank < items.len()
        invariant
            artifact.merge_semantics matches Some(s) && s@ == CANONICAL_BPE_SEMANTICS_V1@,
            !(needs_vocab && vocab_keys is None),
            artifact.merges matches MergesField::Items(v) && v@ == items@,
            rank <= items.len(),
            entries.len() == rank,
            forall|q: int| 0 <= q < rank ==> canonical_item_error(#[trigger] items@[q], q as nat) is None,
            forall|q: int| 0 <= q < rank ==> #[trigger] entry_view(entries@[q]) == canonical_entry(items@[q].unwrap()@, q as nat),
        decreases items.len() - rank,
    {
        match read_canonical_item(&items[rank], rank) {
            Ok(entry) => {
                entries.push(entry);
            },
            Err(msg) => {
                proof {
                    lemma_first_bad_item(items@, rank as int);
                    assert(artifact_items(*artifact) == items@);
                    assert(canonical_item_error(items@[rank as int], rank as nat) == Some(msg@));
                }
                return Err(msg);
            },
        }
        rank = rank + 1;
    }
    assert(!(exists|r: int| 0 <= r < items@.len() && canonical_item_error(items@[r], r as nat) is Some)) by {
        assert forall|r: int| 0 <= r < items@.len() implies canonical_item_error(items@[r], r as nat) is None by {
            assert(canonical_item_error(items@[r], r as nat) is None);
        }
    }
    assert(entries@.map_values(|e: (PairKey, PackedRule)| entry_view(e)) =~= Seq::new(
        items@.len(),
        |r: int| canonical_entry(items@[r].unwrap()@, r as nat),
    ));
    Ok(entries)
}


/// The packed rules a probe reads merge every id sequence exactly as its
/// wide rules do: with packed rules requested, the packed map describes the
/// wide map, so the guarded legacy fixpoints over the two agree.
pub proof fn lemma_packed_rules_merge_alike(packed: Map<u64, u32>, wide: PairMerges, ids: Seq<TokenId>)
    requires
        packed_rules(packed) == wide,
    ensures
        parallel_fixpoint(packed_rules(packed), ids, true) == parallel_fixpoint(wide, ids, true),
{
}

} // verus!
