//! Versioned text-facing tokenizer for canonical ElasticTokenizer execution.
//!
//! Artifacts that predate rank-priority semantics are intentionally **not**
//! accepted here unless they carry an explicit `merge_semantics` tag naming
//! canonical rank-priority merges. Untagged and legacy artifacts belong to the
//! historical parallel-merge tokenizer.
//!
//! The artifact's JSON text is read into a [`TokenizerArtifact`] of plain
//! values by the caller; everything from there on is checked here.

use vstd::prelude::*;
use vstd::string::StringSliceAdditionalSpecFns;

use crate::bpe_semantics::{
    MergeTriple, RuleMap, TokenId, apply_merge_at, canonical_encode, first_repeated_pair, is_best_merge,
    merge_pair, ordered_rule_map, output_at,
};
use crate::canonical_bpe_train::strings_view;
use crate::byte_units::{byte_to_unit, push_char, spec_byte_unit, unit_to_byte};
use crate::elastic_engine::{ElasticBpeEngine, ElasticEncoding, executed_kernel_for};
use crate::elastic_profile_store::{CANONICAL_BPE_SEMANTICS_V1, same_text};
use crate::elastic_tokenizer::{BpeKernel, DuplicateMergeRule, ElasticProfile};

verus! {

/// Tag of the historical parallel-merge semantics.
pub const LEGACY_BPE_SEMANTICS_V1: &'static str = "legacy-parallel-v1";

/// Merge semantics declared by a tokenizer artifact.
#[derive(Clone, Copy, Debug, PartialEq, Eq, Structural)]
pub enum BpeMergeSemantics {
    LegacyParallelV1,
    CanonicalRankV1,
}

impl BpeMergeSemantics {
    /// The tag that declares these semantics.
    pub open spec fn spec_tag(self) -> Seq<char> {
        match self {
            BpeMergeSemantics::LegacyParallelV1 => LEGACY_BPE_SEMANTICS_V1@,
            BpeMergeSemantics::CanonicalRankV1 => CANONICAL_BPE_SEMANTICS_V1@,
        }
    }

    pub fn as_str(self) -> (tag: &'static str)
        ensures
            tag@ == self.spec_tag(),
    {
        match self {
            BpeMergeSemantics::LegacyParallelV1 => LEGACY_BPE_SEMANTICS_V1,
            BpeMergeSemantics::CanonicalRankV1 => CANONICAL_BPE_SEMANTICS_V1,
        }
    }

    /// The semantics a tag declares.
    fn parse(value: &str) -> (result: Result<Self, ElasticTextTokenizerError>)
        ensures
            match result {
                Ok(semantics) => semantics.spec_tag() == value@,
                Err(e) => (forall|s: BpeMergeSemantics| s.spec_tag() != value@) && e
                    is UnknownMergeSemantics && e->UnknownMergeSemantics_0@ == value@,
            },
    {
        if same_text(value, LEGACY_BPE_SEMANTICS_V1) {
            Ok(BpeMergeSemantics::LegacyParallelV1)
        } else if same_text(value, CANONICAL_BPE_SEMANTICS_V1) {
            Ok(BpeMergeSemantics::CanonicalRankV1)
        } else {
            proof {
                assert forall|s: BpeMergeSemantics| s.spec_tag() != value@ by {
                    match s {
                        BpeMergeSemantics::LegacyParallelV1 => {},
                        BpeMergeSemantics::CanonicalRankV1 => {},
                    }
                }
            }
            Err(ElasticTextTokenizerError::UnknownMergeSemantics(value.to_owned()))
        }
    }
}

/// The two semantics tags differ.
pub proof fn lemma_semantic_tags_differ()
    ensures
        BpeMergeSemantics::LegacyParallelV1.spec_tag() != BpeMergeSemantics::CanonicalRankV1.spec_tag(),
{
    reveal_strlit("legacy-parallel-v1");
    reveal_strlit("canonical-rank-v1");
    assert(LEGACY_BPE_SEMANTICS_V1@.len() != CANONICAL_BPE_SEMANTICS_V1@.len());
}

/// Why a tokenizer artifact cannot serve canonical rank-priority encoding.
#[derive(Clone, Debug, PartialEq, Eq)]
pub enum ElasticTextTokenizerError {
    /// The artifact's JSON did not have the expected shape.
    Json(String),
    MissingField(&'static str),
    InvalidField(&'static str),
    MissingMergeSemantics,
    UnknownMergeSemantics(String),
    LegacyMergeSemantics,
    InvalidMergeRule(usize),
    MergeTokenOutOfVocab { rule_index: usize, token_id: TokenId, vocab_size: usize },
    EmptyVocab,
    InvalidVocabId(TokenId),
    DuplicateVocabId(TokenId),
    SparseVocab(TokenId),
    InvalidSpecialToken(&'static str),
    MissingByteToken(u8),
    DuplicateMergeRule(DuplicateMergeRule),
}

/// The `vocab` field of an artifact.
#[derive(Clone, Debug, PartialEq, Eq)]
pub enum VocabField {
    Missing,
    /// Present but not a map from token strings to ids; the reader's message.
    Invalid(String),
    /// Token strings with their ids, each token string once.
    Entries(Vec<(String, TokenId)>),
}

/// The `merges` field of an artifact.
#[derive(Clone, Debug, PartialEq, Eq)]
pub enum MergesField {
    Missing,
    NotArray,
    /// Array items in order; `None` for an item that is not a string.
    Items(Vec<Option<String>>),
}

/// The fields of a tokenizer artifact, as plain values.
#[derive(Clone, Debug, PartialEq, Eq)]
pub struct TokenizerArtifact {
    /// `merge_semantics`, when it is present and a string.
    pub merge_semantics: Option<String>,
    /// `version`, when it is present and a string.
    pub version: Option<String>,
    pub vocab: VocabField,
    pub merges: MergesField,
}

/// The id of the last entry whose token string is `key`.
pub open spec fn lookup(entries: Seq<(String, TokenId)>, key: Seq<char>) -> Option<TokenId>
    decreases entries.len(),
{
    if entries.len() == 0 {
        None
    } else if entries.last().0@ == key {
        Some(entries.last().1)
    } else {
        lookup(entries.drop_last(), key)
    }
}

/// Every token string occurs once.
pub open spec fn keys_distinct(entries: Seq<(String, TokenId)>) -> bool {
    forall|i: int, j: int| 0 <= i < j < entries.len() ==> entries[i].0@ != entries[j].0@
}

/// The ids of the entries, in order.
pub open spec fn entry_ids(entries: Seq<(String, TokenId)>) -> Seq<TokenId> {
    entries.map_values(|e: (String, TokenId)| e.1)
}

/// Index of the first id that repeats an earlier one.
pub open spec fn first_duplicate(ids: Seq<TokenId>) -> Option<int>
    decreases ids.len(),
{
    if ids.len() == 0 {
        None
    } else {
        match first_duplicate(ids.drop_last()) {
            Some(j) => Some(j),
            None => if ids.drop_last().contains(ids.last()) {
                Some(ids.len() - 1)
            } else {
                None
            },
        }
    }
}

/// Largest id (zero for no ids).
pub open spec fn max_id(ids: Seq<TokenId>) -> int
    decreases ids.len(),
{
    if ids.len() == 0 {
        0
    } else if max_id(ids.drop_last()) < ids.last() {
        ids.last() as int
    } else {
        max_id(ids.drop_last())
    }
}

/// `m` is the smallest id up to the largest id that no entry has.
pub open spec fn is_first_missing(ids: Seq<TokenId>, m: int) -> bool {
    &&& 0 <= m <= max_id(ids)
    &&& !ids.contains(m as TokenId)
    &&& forall|k: TokenId| k < m ==> ids.contains(k)
}

/// Every id from zero to the largest id occurs.
pub open spec fn ids_dense(ids: Seq<TokenId>) -> bool {
    forall|k: TokenId| k <= max_id(ids) ==> ids.contains(k)
}

pub proof fn lemma_max_id(ids: Seq<TokenId>)
    ensures
        forall|i: int| 0 <= i < ids.len() ==> ids[i] <= max_id(ids),
        ids.len() > 0 ==> ids.contains(max_id(ids) as TokenId),
    decreases ids.len(),
{
    if ids.len() > 0 {
        lemma_max_id(ids.drop_last());
        assert forall|i: int| 0 <= i < ids.len() implies ids[i] <= max_id(ids) by {
            if i < ids.len() - 1 {
                assert(ids.drop_last()[i] == ids[i]);
            }
        }
        if ids.drop_last().len() > 0 && max_id(ids.drop_last()) >= ids.last() {
            let k = choose|k: int| 0 <= k < ids.drop_last().len() && ids.drop_last()[k] == max_id(ids.drop_last()) as TokenId;
            assert(ids[k] == ids.drop_last()[k]);
        } else {
            assert(ids[ids.len() - 1] == ids.last());
        }
    }
}

/// Ids that are pairwise distinct have no first duplicate.
pub proof fn lemma_distinct_ids(ids: Seq<TokenId>)
    requires
        forall|i: int, j: int| 0 <= i < j < ids.len() ==> ids[i] != ids[j],
    ensures
        first_duplicate(ids) is None,
    decreases ids.len(),
{
    if ids.len() > 0 {
        let pre = ids.drop_last();
        lemma_distinct_ids(pre);
        if pre.contains(ids.last()) {
            let i = choose|i: int| 0 <= i < pre.len() && pre[i] == ids.last();
            assert(ids[i] == ids[ids.len() - 1]);
        }
    }
}

/// With distinct keys, the entry holding a key is the one found.
pub proof fn lemma_lookup_distinct(entries: Seq<(String, TokenId)>, j: int)
    requires
        keys_distinct(entries),
        0 <= j < entries.len(),
    ensures
        lookup(entries, entries[j].0@) == Some(entries[j].1),
    decreases entries.len(),
{
    if j < entries.len() - 1 {
        let pre = entries.drop_last();
        assert(pre[j] == entries[j]);
        assert(entries.last().0@ != entries[j].0@);
        lemma_lookup_distinct(pre, j);
    }
}

/// A duplicate found in a prefix is the first duplicate of the whole.
proof fn lemma_first_duplicate_prefix(ids: Seq<TokenId>, k: int)
    requires
        0 <= k <= ids.len(),
    ensures
        first_duplicate(ids.take(k)) is Some ==> first_duplicate(ids) == first_duplicate(ids.take(k)),
        first_duplicate(ids.take(k)) is None && (k == ids.len()) ==> first_duplicate(ids) is None,
    decreases ids.len() - k,
{
    if k == ids.len() {
        assert(ids.take(k) =~= ids);
    } else {
        lemma_first_duplicate_prefix(ids, k + 1);
        let pre = ids.take(k + 1);
        assert(pre.drop_last() =~= ids.take(k));
    }
}

/// The reverse vocabulary: the token string of every id from zero to the
/// largest id. Errors, in the order checked: no entries; the first entry (in
/// order) whose id an earlier entry already has; the smallest missing id.
fn build_reverse_vocab(entries: &Vec<(String, TokenId)>) -> (result: Result<Vec<String>, ElasticTextTokenizerError>)
    requires
        forall|i: int| 0 <= i < entries.len() ==> (#[trigger] entries@[i]).1 < usize::MAX,
    ensures
        entries.len() == 0 ==> result == Err::<Vec<String>, ElasticTextTokenizerError>(ElasticTextTokenizerError::EmptyVocab),
        entries.len() > 0 ==> (first_duplicate(entry_ids(entries@)) matches Some(j) ==> result
            == Err::<Vec<String>, ElasticTextTokenizerError>(
            ElasticTextTokenizerError::DuplicateVocabId(entries@[j].1),
        )),
        entries.len() > 0 && first_duplicate(entry_ids(entries@)) is None && !ids_dense(
            entry_ids(entries@),
        ) ==> (result matches Err(ElasticTextTokenizerError::SparseVocab(m)) && is_first_missing(
            entry_ids(entries@),
            m as int,
        )),
        entries.len() > 0 && first_duplicate(entry_ids(entries@)) is None && ids_dense(entry_ids(entries@)) ==> result is Ok,
        match result {
            Ok(rev) => {
                &&& entries.len() > 0
                &&& first_duplicate(entry_ids(entries@)) is None
                &&& ids_dense(entry_ids(entries@))
                &&& rev.len() == max_id(entry_ids(entries@)) + 1
                &&& forall|i: int| 0 <= i < entries.len() ==> rev@[(#[trigger] entries@[i]).1 as int]@ == entries@[i].0@
            },
            Err(_) => true,
        },
{
    let ghost ids = entry_ids(entries@);
    if entries.len() == 0 {
        return Err(ElasticTextTokenizerError::EmptyVocab);
    }
    let mut max: TokenId = 0;
    let mut j: usize = 0;
    while j < entries.len()
        invariant
            j <= entries.len(),
            ids == entry_ids(entries@),
            max == max_id(ids.take(j as int)),
        decreases entries.len() - j,
    {
        assert(ids.take(j + 1).drop_last() =~= ids.take(j as int));
        if max < entries[j].1 {
            max = entries[j].1;
        }
        j = j + 1;
    }
    assert(ids.take(entries.len() as int) =~= ids);
    proof {
        lemma_max_id(ids);
        assert(ids[0] == entries@[0].1);
    }
    let mut slots: Vec<Option<String>> = Vec::new();
    let mut k: usize = 0;
    while k <= max
        invariant
            k <= max + 1,
            max < usize::MAX,
            slots.len() == k,
            forall|x: int| 0 <= x < k ==> (#[trigger] slots@[x]) is None,
        decreases max + 1 - k,
    {
        slots.push(None);
        k = k + 1;
    }
    let mut j: usize = 0;
    while j < entries.len()
        invariant
            j <= entries.len(),
            ids == entry_ids(entries@),
            max == max_id(ids),
            forall|i: int| 0 <= i < ids.len() ==> ids[i] <= max_id(ids),
            slots.len() == max + 1,
            first_duplicate(ids.take(j as int)) is None,
            forall|i: int|
                0 <= i < j ==> (#[trigger] slots@[ids[i] as int]) is Some && slots@[ids[i] as int].unwrap()@
                    == entries@[i].0@,
            forall|x: int| 0 <= x <= max && (#[trigger] slots@[x]) is Some ==> ids.take(j as int).contains(x as TokenId),
        decreases entries.len() - j,
    {
        let id = entries[j].1;
        assert(ids[j as int] == id);
        let ghost pre = ids.take(j + 1);
        assert(pre.drop_last() =~= ids.take(j as int));
        if slots[id].is_some() {
            proof {
                assert(ids.take(j as int).contains(id));
                assert(pre.last() == id);
                lemma_first_duplicate_prefix(ids, j + 1);
            }
            return Err(ElasticTextTokenizerError::DuplicateVocabId(id));
        }
        proof {
            assert(!ids.take(j as int).contains(id));
        }
        slots.set(id, Some(entries[j].0.clone()));
        proof {
            assert forall|x: int| 0 <= x <= max && (#[trigger] slots@[x]) is Some implies pre.contains(x as TokenId) by {
                if x == id {
                    assert(pre[j as int] == id);
                } else {
                    let i = choose|i: int| 0 <= i < j && ids.take(j as int)[i] == x as TokenId;
                    assert(pre[i] == x as TokenId);
                }
            }
            assert forall|i: int| 0 <= i < j + 1 implies (#[trigger] slots@[ids[i] as int]) is Some
                && slots@[ids[i] as int].unwrap()@ == entries@[i].0@ by {
                if i < j {
                    assert(ids.take(j as int)[i] == ids[i]);
                }
            }
        }
        j = j + 1;
    }
    assert(ids.take(entries.len() as int) =~= ids);
    proof {
        lemma_first_duplicate_prefix(ids, entries.len() as int);
    }
    let mut rev: Vec<String> = Vec::new();
    let mut x: usize = 0;
    while x <= max
        invariant
            x <= max + 1,
            max < usize::MAX,
            ids == entry_ids(entries@),
            max == max_id(ids),
            slots.len() == max + 1,
            rev.len() == x,
            entries.len() > 0,
            first_duplicate(ids) is None,
            forall|i: int| 0 <= i < ids.len() ==> ids[i] <= max_id(ids),
            forall|i: int|
                0 <= i < entries.len() ==> (#[trigger] slots@[ids[i] as int]) is Some && slots@[ids[i] as int].unwrap()@
                    == entries@[i].0@,
            forall|y: TokenId| y < x ==> ids.contains(y),
            forall|y: int| 0 <= y < x ==> (#[trigger] slots@[y]) is Some && rev@[y] == slots@[y].unwrap(),
            forall|y: int| 0 <= y <= max && (#[trigger] slots@[y]) is Some ==> ids.contains(y as TokenId),
            forall|y: int| 0 <= y <= max && ids.contains(y as TokenId) ==> (#[trigger] slots@[y]) is Some,
        decreases max + 1 - x,
    {
        match &slots[x] {
            Some(token) => {
                rev.push(token.clone());
            },
            None => {
                proof {
                    assert(!ids.contains(x as TokenId));
                    assert(is_first_missing(ids, x as int));
                }
                return Err(ElasticTextTokenizerError::SparseVocab(x));
            },
        }
        x = x + 1;
    }
    proof {
        assert forall|i: int| 0 <= i < entries.len() implies rev@[(#[trigger] entries@[i]).1 as int]@ == entries@[i].0@ by {
            assert(ids[i] == entries@[i].1);
            let y = ids[i] as int;
            assert(slots@[y] is Some);
            assert(rev@[y] == slots@[y].unwrap());
        }
    }
    Ok(rev)
}

/// The characters of `s`, in order.
pub(crate) fn chars_of(s: &str) -> (chars: Vec<char>)
    ensures
        chars@ == s@,
{
    let mut chars: Vec<char> = Vec::new();
    for c in it: s.chars()
        invariant
            chars@ == it.seq().take(it.index() as int),
    {
        chars.push(c);
        proof {
            assert(chars@ =~= it.seq().take(it.index() as int + 1));
        }
    }
    proof {
        vstd::string::axiom_spec_iter(s);
    }
    chars
}

/// Unicode `White_Space`, the property `char::is_whitespace` tests.
pub open spec fn is_white_space(c: char) -> bool {
    let v = c as u32;
    (9 <= v <= 13) || v == 32 || v == 0x85 || v == 0xa0 || v == 0x1680 || (0x2000 <= v <= 0x200a)
        || v == 0x2028 || v == 0x2029 || v == 0x202f || v == 0x205f || v == 0x3000
}

pub(crate) fn white_space(c: char) -> (b: bool)
    ensures
        b == is_white_space(c),
{
    let v = c as u32;
    (9 <= v && v <= 13) || v == 32 || v == 0x85 || v == 0xa0 || v == 0x1680 || (0x2000 <= v && v
        <= 0x200a) || v == 0x2028 || v == 0x2029 || v == 0x202f || v == 0x205f || v == 0x3000
}

/// Words completed so far and the word in progress, scanning `s` left to right.
pub open spec fn split_state(s: Seq<char>) -> (Seq<Seq<char>>, Seq<char>)
    decreases s.len(),
{
    if s.len() == 0 {
        (Seq::empty(), Seq::empty())
    } else {
        let (words, current) = split_state(s.drop_last());
        if is_white_space(s.last()) {
            if current.len() > 0 {
                (words.push(current), Seq::empty())
            } else {
                (words, Seq::empty())
            }
        } else {
            (words, current.push(s.last()))
        }
    }
}

/// The maximal runs of non-whitespace characters of `s`, in order.
pub open spec fn whitespace_words(s: Seq<char>) -> Seq<Seq<char>> {
    let (words, current) = split_state(s);
    if current.len() > 0 {
        words.push(current)
    } else {
        words
    }
}

pub open spec fn is_digit(c: char) -> bool {
    '0' <= c <= '9'
}

/// Decimal value of a run of digits.
pub open spec fn decimal_value(digits: Seq<char>) -> nat
    decreases digits.len(),
{
    if digits.len() == 0 {
        0
    } else {
        decimal_value(digits.drop_last()) * 10 + (digits.last() as nat - '0' as nat) as nat
    }
}

/// The digits of an unsigned integer literal: an optional `+`, then digits.
pub open spec fn unsigned_digits(word: Seq<char>) -> Seq<char> {
    if word.len() > 0 && word[0] == '+' {
        word.skip(1)
    } else {
        word
    }
}

/// `str::parse::<usize>`: an optional `+` and at least one decimal digit,
/// with a value that fits in `usize`.
pub open spec fn parse_usize(word: Seq<char>) -> Option<usize> {
    let digits = unsigned_digits(word);
    if digits.len() > 0 && (forall|i: int| 0 <= i < digits.len() ==> is_digit(#[trigger] digits[i]))
        && decimal_value(digits) <= usize::MAX {
        Some(decimal_value(digits) as usize)
    } else {
        None
    }
}

/// A merge rule written as three whitespace-separated ids.
pub open spec fn parse_rule(text: Seq<char>) -> Option<MergeTriple> {
    let words = whitespace_words(text);
    if words.len() == 3 && parse_usize(words[0]) is Some && parse_usize(words[1]) is Some
        && parse_usize(words[2]) is Some {
        Some((parse_usize(words[0]).unwrap(), parse_usize(words[1]).unwrap(), parse_usize(words[2]).unwrap()))
    } else {
        None
    }
}

/// The item holds a well-formed merge rule.
pub open spec fn item_is_rule(item: Option<String>) -> bool {
    match item {
        Some(text) => parse_rule(text@) is Some,
        None => false,
    }
}

/// Index of the first item that is not a well-formed merge rule.
pub open spec fn first_invalid_rule(items: Seq<Option<String>>) -> Option<int> {
    if exists|i: int| 0 <= i < items.len() && !item_is_rule(#[trigger] items[i]) {
        Some(choose|i: int| 0 <= i < items.len() && !item_is_rule(#[trigger] items[i]) && forall|j: int| 0 <= j < i ==> item_is_rule(#[trigger] items[j]))
    } else {
        None
    }
}

proof fn lemma_decimal_grows(digits: Seq<char>, k: int)
    requires
        0 <= k <= digits.len(),
        forall|i: int| 0 <= i < digits.len() ==> is_digit(#[trigger] digits[i]),
    ensures
        decimal_value(digits.take(k)) <= decimal_value(digits),
    decreases digits.len() - k,
{
    if k < digits.len() {
        lemma_decimal_grows(digits, k + 1);
        assert(digits.take(k + 1).drop_last() =~= digits.take(k));
    } else {
        assert(digits.take(k) =~= digits);
    }
}

/// Parses an unsigned decimal word.
pub(crate) fn parse_usize_word(word: &Vec<char>) -> (value: Option<usize>)
    ensures
        value == parse_usize(word@),
{
    let ghost w = word@;
    let mut start: usize = 0;
    if word.len() > 0 && word[0] == '+' {
        start = 1;
    }
    let ghost digits = unsigned_digits(w);
    assert(digits =~= w.skip(start as int));
    if start >= word.len() {
        return None;
    }
    let mut value: usize = 0;
    let mut i: usize = start;
    while i < word.len()
        invariant
            start <= i <= word.len(),
            w == word@,
            digits == w.skip(start as int),
            digits == unsigned_digits(w),
            forall|j: int| 0 <= j < i - start ==> is_digit(#[trigger] digits[j]),
            value == decimal_value(digits.take(i - start)),
        decreases word.len() - i,
    {
        let c = word[i];
        assert(digits[i - start] == c);
        if !('0' <= c && c <= '9') {
            assert(!is_digit(digits[i - start]));
            return None;
        }
        assert(digits.take(i - start + 1).drop_last() =~= digits.take(i - start));
        let d = (c as u32 - '0' as u32) as usize;
        let next = match value.checked_mul(10) {
            Some(v) => v.checked_add(d),
            None => None,
        };
        match next {
            Some(v) => {
                value = v;
            },
            None => {
                proof {
                    let k = i - start;
                    assert(digits.take(k + 1).last() == c);
                    assert(decimal_value(digits.take(k + 1)) == value * 10 + d);
                    assert(value * 10 + d > usize::MAX);
                    if forall|j: int| 0 <= j < digits.len() ==> is_digit(#[trigger] digits[j]) {
                        lemma_decimal_grows(digits, i - start + 1);
                    }
                }
                return None;
            },
        }
        i = i + 1;
    }
    assert(digits.take(i - start) =~= digits);
    Some(value)
}

/// Splits `chars` into its maximal runs of non-whitespace characters.
pub(crate) fn split_words(chars: &Vec<char>) -> (words: Vec<Vec<char>>)
    ensures
        words@.map_values(|w: Vec<char>| w@) == whitespace_words(chars@),
{
    let mut words: Vec<Vec<char>> = Vec::new();
    let mut current: Vec<char> = Vec::new();
    let mut i: usize = 0;
    while i < chars.len()
        invariant
            i <= chars.len(),
            (words@.map_values(|w: Vec<char>| w@), current@) == split_state(chars@.take(i as int)),
        decreases chars.len() - i,
    {
        let c = chars[i];
        assert(chars@.take(i + 1).drop_last() =~= chars@.take(i as int));
        assert(chars@.take(i + 1).last() == c);
        if white_space(c) {
            if current.len() > 0 {
                let done = current;
                current = Vec::new();
                words.push(done);
                assert(words@.map_values(|w: Vec<char>| w@) =~= split_state(chars@.take(i + 1)).0);
            } else {
                current = Vec::new();
            }
        } else {
            current.push(c);
        }
        assert(current@ =~= split_state(chars@.take(i + 1)).1);
        i = i + 1;
    }
    assert(chars@.take(chars.len() as int) =~= chars@);
    if current.len() > 0 {
        words.push(current);
        assert(words@.map_values(|w: Vec<char>| w@) =~= whitespace_words(chars@));
    }
    words
}

/// Parses one merge rule.
fn parse_rule_text(text: &String) -> (rule: Option<MergeTriple>)
    ensures
        rule == parse_rule(text@),
{
    let chars = chars_of(text.as_str());
    let words = split_words(&chars);
    let ghost ws = whitespace_words(text@);
    assert(words@.len() == ws.len());
    if words.len() != 3 {
        return None;
    }
    assert(words@[0]@ == ws[0] && words@[1]@ == ws[1] && words@[2]@ == ws[2]);
    let left = match parse_usize_word(&words[0]) {
        Some(v) => v,
        None => return None,
    };
    let right = match parse_usize_word(&words[1]) {
        Some(v) => v,
        None => return None,
    };
    let output = match parse_usize_word(&words[2]) {
        Some(v) => v,
        None => return None,
    };
    Some((left, right, output))
}

/// Parses the merge rules in order; the first item that is not a string of
/// three whitespace-separated ids is reported by index.
fn parse_merges(items: &Vec<Option<String>>) -> (result: Result<Vec<MergeTriple>, ElasticTextTokenizerError>)
    ensures
        match result {
            Ok(merges) => first_invalid_rule(items@) is None && merges.len() == items.len() && forall|i: int|
                0 <= i < items.len() ==> parse_rule((#[trigger] items@[i]).unwrap()@) == Some(merges@[i]),
            Err(e) => first_invalid_rule(items@) matches Some(i) && e == ElasticTextTokenizerError::InvalidMergeRule(i as usize),
        },
{
    let mut merges: Vec<MergeTriple> = Vec::new();
    let mut i: usize = 0;
    while i < items.len()
        invariant
            i <= items.len(),
            merges.len() == i,
            forall|j: int| 0 <= j < i ==> item_is_rule(#[trigger] items@[j]),
            forall|j: int| 0 <= j < i ==> parse_rule((#[trigger] items@[j]).unwrap()@) == Some(merges@[j]),
        decreases items.len() - i,
    {
        let rule = match &items[i] {
            Some(text) => parse_rule_text(text),
            None => None,
        };
        match rule {
            Some(r) => {
                merges.push(r);
            },
            None => {
                proof {
                    assert(!item_is_rule(items@[i as int]));
                    let f = first_invalid_rule(items@);
                    let k = f.unwrap();
                    assert(0 <= k < items.len() && !item_is_rule(items@[k]));
                    if k < i {
                        assert(item_is_rule(items@[k]));
                    }
                    if k > i {
                        assert(item_is_rule(items@[i as int]));
                    }
                }
                return Err(ElasticTextTokenizerError::InvalidMergeRule(i));
            },
        }
        i = i + 1;
    }
    Ok(merges)
}

/// Names of the special tokens, whose ids are their positions.
pub open spec fn special_name(i: int) -> Seq<char> {
    if i == 0 {
        seq!['<', 'p', 'a', 'd', '>']
    } else if i == 1 {
        seq!['<', 'b', 'o', 's', '>']
    } else if i == 2 {
        seq!['<', 'e', 'o', 's', '>']
    } else {
        seq!['<', 'u', 'n', 'k', '>']
    }
}

/// Number of special tokens.
pub const SPECIAL_TOKEN_COUNT: usize = 4;

/// Name of special token `i`.
fn special_token(i: usize) -> (name: &'static str)
    requires
        i < 4,
    ensures
        name@ == special_name(i as int),
{
    if i == 0 {
        proof {
            reveal_strlit("<pad>");
        }
        "<pad>"
    } else if i == 1 {
        proof {
            reveal_strlit("<bos>");
        }
        "<bos>"
    } else if i == 2 {
        proof {
            reveal_strlit("<eos>");
        }
        "<eos>"
    } else {
        proof {
            reveal_strlit("<unk>");
        }
        "<unk>"
    }
}

/// The id of `key` in the vocabulary.
pub(crate) fn find_id(entries: &Vec<(String, TokenId)>, key: &str) -> (id: Option<TokenId>)
    ensures
        id == lookup(entries@, key@),
{
    let mut i: usize = entries.len();
    assert(entries@.take(i as int) =~= entries@);
    while i > 0
        invariant
            i <= entries.len(),
            lookup(entries@, key@) == lookup(entries@.take(i as int), key@),
        decreases i,
    {
        let ghost pre = entries@.take(i as int);
        assert(pre.drop_last() =~= entries@.take(i - 1));
        assert(pre.last() == entries@[i - 1]);
        if same_text(entries[i - 1].0.as_str(), key) {
            return Some(entries[i - 1].1);
        }
        i = i - 1;
    }
    None
}

/// Index of the first special token whose vocabulary id is not its position.
pub open spec fn first_bad_special(entries: Seq<(String, TokenId)>) -> Option<int> {
    if lookup(entries, special_name(0)) != Some(0usize) {
        Some(0)
    } else if lookup(entries, special_name(1)) != Some(1usize) {
        Some(1)
    } else if lookup(entries, special_name(2)) != Some(2usize) {
        Some(2)
    } else if lookup(entries, special_name(3)) != Some(3usize) {
        Some(3)
    } else {
        None
    }
}

/// Each special token has its position as id; the first that does not is
/// reported.
fn validate_special_tokens(entries: &Vec<(String, TokenId)>) -> (result: Result<(), ElasticTextTokenizerError>)
    ensures
        match result {
            Ok(()) => first_bad_special(entries@) is None,
            Err(e) => first_bad_special(entries@) matches Some(i) && e is InvalidSpecialToken
                && e->InvalidSpecialToken_0@ == special_name(i),
        },
{
    let mut i: usize = 0;
    while i < SPECIAL_TOKEN_COUNT
        invariant
            i <= 4,
            forall|j: int| 0 <= j < i ==> lookup(entries@, #[trigger] special_name(j)) == Some(j as usize),
        decreases 4 - i,
    {
        let name = special_token(i);
        let found = find_id(entries, name);
        let ok = match found {
            Some(id) => id == i,
            None => false,
        };
        if !ok {
            proof {
                assert(lookup(entries@, special_name(0)) == Some(0usize) || i == 0);
                assert(i <= 1 || lookup(entries@, special_name(1)) == Some(1usize));
                assert(i <= 2 || lookup(entries@, special_name(2)) == Some(2usize));
            }
            return Err(ElasticTextTokenizerError::InvalidSpecialToken(name));
        }
        i = i + 1;
    }
    proof {
        assert(lookup(entries@, special_name(0)) == Some(0usize));
        assert(lookup(entries@, special_name(1)) == Some(1usize));
        assert(lookup(entries@, special_name(2)) == Some(2usize));
        assert(lookup(entries@, special_name(3)) == Some(3usize));
    }
    Ok(())
}

/// Decimal digit character.
pub open spec fn digit_char(d: int) -> char {
    (d + 48) as char
}

/// The vocabulary key of a byte in artifacts that are not byte-level
/// reversible: the byte itself when it is ASCII, otherwise `<` and its
/// decimal value and `>`.
pub open spec fn legacy_byte_key(b: u8) -> Seq<char> {
    if b < 128 {
        seq![b as char]
    } else {
        seq!['<', digit_char(b as int / 100), digit_char((b as int / 10) % 10), digit_char(b as int % 10), '>']
    }
}

/// The vocabulary key of the base token of a byte.
pub open spec fn byte_key(b: u8, reversible: bool) -> Seq<char> {
    if reversible {
        seq![spec_byte_unit(b)]
    } else {
        legacy_byte_key(b)
    }
}

pub(crate) fn byte_key_string(b: u8, reversible: bool) -> (key: String)
    ensures
        key@ == byte_key(b, reversible),
{
    let mut key = String::new();
    if reversible {
        push_char(&mut key, byte_to_unit(b));
    } else if b < 128 {
        push_char(&mut key, b as char);
    } else {
        push_char(&mut key, '<');
        push_char(&mut key, ((b / 100) + 48) as char);
        push_char(&mut key, ((b / 10) % 10 + 48) as char);
        push_char(&mut key, ((b % 10) + 48) as char);
        push_char(&mut key, '>');
    }
    assert(key@ =~= byte_key(b, reversible));
    key
}

/// Whether byte `b` has no base token.
pub open spec fn byte_missing(entries: Seq<(String, TokenId)>, b: u8, reversible: bool) -> bool {
    lookup(entries, byte_key(b, reversible)) is None
}

/// Every byte has a base token.
pub open spec fn all_bytes_present(entries: Seq<(String, TokenId)>, reversible: bool) -> bool {
    forall|b: u8| !#[trigger] byte_missing(entries, b, reversible)
}

/// `b` is the smallest byte with no base token.
pub open spec fn is_first_missing_byte(entries: Seq<(String, TokenId)>, reversible: bool, b: u8) -> bool {
    byte_missing(entries, b, reversible) && forall|c: u8| c < b ==> !#[trigger] byte_missing(entries, c, reversible)
}

/// The base token id of every byte; the first byte without one is reported.
fn base_byte_ids(entries: &Vec<(String, TokenId)>, reversible: bool) -> (result: Result<Vec<TokenId>, ElasticTextTokenizerError>)
    ensures
        match result {
            Ok(ids) => all_bytes_present(entries@, reversible) && ids.len() == 256 && forall|b: u8|
                lookup(entries@, byte_key(b, reversible)) == Some(#[trigger] ids@[b as int]),
            Err(e) => e matches ElasticTextTokenizerError::MissingByteToken(b) && is_first_missing_byte(
                entries@,
                reversible,
                b,
            ),
        },
{
    let mut ids: Vec<TokenId> = Vec::new();
    let mut b: usize = 0;
    while b < 256
        invariant
            b <= 256,
            ids.len() == b,
            forall|c: u8| c < b ==> !#[trigger] byte_missing(entries@, c, reversible),
            forall|c: u8| c < b ==> lookup(entries@, byte_key(c, reversible)) == Some(#[trigger] ids@[c as int]),
        decreases 256 - b,
    {
        let byte = b as u8;
        let key = byte_key_string(byte, reversible);
        match find_id(entries, key.as_str()) {
            Some(id) => {
                ids.push(id);
                proof {
                    assert forall|c: u8| c < b + 1 implies lookup(entries@, byte_key(c, reversible)) == Some(#[trigger] ids@[c as int]) by {
                        if c == byte {
                        }
                    }
                    assert forall|c: u8| c < b + 1 implies !#[trigger] byte_missing(entries@, c, reversible) by {
                        if c == byte {
                        }
                    }
                }
            },
            None => {
                return Err(ElasticTextTokenizerError::MissingByteToken(byte));
            },
        }
        b = b + 1;
    }
    Ok(ids)
}

/// A rule names an id outside the vocabulary.
pub open spec fn rule_out_of_vocab(m: MergeTriple, vocab_size: int) -> bool {
    m.0 >= vocab_size || m.1 >= vocab_size || m.2 >= vocab_size
}

/// The first id of a rule, in left, right, output order, outside the vocabulary.
pub open spec fn out_of_vocab_id(m: MergeTriple, vocab_size: int) -> TokenId {
    if m.0 >= vocab_size {
        m.0
    } else if m.1 >= vocab_size {
        m.1
    } else {
        m.2
    }
}

/// `i` is the first rule that names an id outside the vocabulary.
pub open spec fn is_first_out_of_vocab(merges: Seq<MergeTriple>, vocab_size: int, i: int) -> bool {
    &&& 0 <= i < merges.len()
    &&& rule_out_of_vocab(merges[i], vocab_size)
    &&& forall|j: int| 0 <= j < i ==> !rule_out_of_vocab(#[trigger] merges[j], vocab_size)
}

/// Every id of every rule is in the vocabulary; the first that is not is
/// reported with its rule.
fn validate_merge_ids(merges: &Vec<MergeTriple>, vocab_size: usize) -> (result: Result<(), ElasticTextTokenizerError>)
    ensures
        match result {
            Ok(()) => forall|j: int| 0 <= j < merges.len() ==> !rule_out_of_vocab(#[trigger] merges@[j], vocab_size as int),
            Err(e) => e matches ElasticTextTokenizerError::MergeTokenOutOfVocab { rule_index, token_id, vocab_size: size }
                && size == vocab_size && is_first_out_of_vocab(merges@, vocab_size as int, rule_index as int)
                && token_id == out_of_vocab_id(merges@[rule_index as int], vocab_size as int),
        },
{
    let mut i: usize = 0;
    while i < merges.len()
        invariant
            i <= merges.len(),
            forall|j: int| 0 <= j < i ==> !rule_out_of_vocab(#[trigger] merges@[j], vocab_size as int),
        decreases merges.len() - i,
    {
        let (left, right, output) = merges[i];
        let bad = if left >= vocab_size {
            Some(left)
        } else if right >= vocab_size {
            Some(right)
        } else if output >= vocab_size {
            Some(output)
        } else {
            None
        };
        if let Some(token_id) = bad {
            return Err(ElasticTextTokenizerError::MergeTokenOutOfVocab { rule_index: i, token_id, vocab_size });
        }
        i = i + 1;
    }
    Ok(())
}

/// Text that `String::from_utf8_lossy` makes of `bytes`.
pub uninterp spec fn utf8_lossy_of(bytes: Seq<u8>) -> Seq<char>;

/// `String::from_utf8_lossy`, made owned. Its documentation promises that
/// valid UTF-8 comes back as the text it encodes; what it makes of invalid
/// sequences (replacement characters) is left to the name `utf8_lossy_of`.
#[verifier::external_body]
fn utf8_lossy(bytes: &[u8]) -> (text: String)
    ensures
        text@ == utf8_lossy_of(bytes@),
        vstd::utf8::valid_utf8(bytes@) ==> text@ == vstd::utf8::decode_utf8(bytes@),
{
    String::from_utf8_lossy(bytes).into_owned()
}

/// The byte a vocabulary unit stands for, if any.
pub open spec fn unit_byte(c: char) -> Option<u8> {
    if exists|b: u8| spec_byte_unit(b) == c {
        Some(choose|b: u8| spec_byte_unit(b) == c)
    } else {
        None
    }
}

/// The bytes of the units of a token, skipping characters that are not units.
pub open spec fn unit_bytes(token: Seq<char>) -> Seq<u8>
    decreases token.len(),
{
    if token.len() == 0 {
        Seq::empty()
    } else {
        unit_bytes(token.drop_last()) + match unit_byte(token.last()) {
            Some(b) => seq![b],
            None => Seq::empty(),
        }
    }
}

/// Bytes of a byte-level reversible decoding: special tokens and unknown ids
/// contribute nothing.
pub open spec fn reversible_bytes(rev: Seq<String>, ids: Seq<TokenId>) -> Seq<u8>
    decreases ids.len(),
{
    if ids.len() == 0 {
        Seq::empty()
    } else {
        reversible_bytes(rev, ids.drop_last()) + token_bytes(rev, ids.last())
    }
}

/// Bytes that token `id` stands for in a byte-level reversible decoding:
/// none for special tokens and unknown ids.
pub open spec fn token_bytes(rev: Seq<String>, id: TokenId) -> Seq<u8> {
    if id < 4 || id >= rev.len() {
        Seq::empty()
    } else {
        unit_bytes(rev[id as int]@)
    }
}

/// A legacy token that stands for no text: a special token, or `<` and
/// decimal digits and `>`.
pub open spec fn is_legacy_non_text(token: Seq<char>) -> bool {
    ||| token == special_name(0)
    ||| token == special_name(1)
    ||| token == special_name(2)
    ||| token == special_name(3)
    ||| (token.len() >= 3 && token[0] == '<' && token.last() == '>' && forall|i: int|
        1 <= i < token.len() - 1 ==> is_digit(#[trigger] token[i]))
}

/// Text of a legacy decoding: the token strings that stand for text.
pub open spec fn legacy_text(rev: Seq<String>, ids: Seq<TokenId>) -> Seq<char>
    decreases ids.len(),
{
    if ids.len() == 0 {
        Seq::empty()
    } else {
        legacy_text(rev, ids.drop_last()) + if ids.last() < rev.len() && !is_legacy_non_text(
            rev[ids.last() as int]@,
        ) {
            rev[ids.last() as int]@
        } else {
            Seq::empty()
        }
    }
}

fn legacy_non_text(token: &String) -> (b: bool)
    ensures
        b == is_legacy_non_text(token@),
{
    let mut i: usize = 0;
    while i < SPECIAL_TOKEN_COUNT
        invariant
            i <= 4,
            forall|j: int| 0 <= j < i ==> token@ != #[trigger] special_name(j),
        decreases 4 - i,
    {
        if same_text(token.as_str(), special_token(i)) {
            return true;
        }
        i = i + 1;
    }
    assert(token@ != special_name(0) && token@ != special_name(1));
    assert(token@ != special_name(2) && token@ != special_name(3));
    let chars = chars_of(token.as_str());
    let n = chars.len();
    if n < 3 || chars[0] != '<' || chars[n - 1] != '>' {
        assert(n >= 3 ==> token@.last() == chars@[n - 1] && token@[0] == chars@[0]);
        return false;
    }
    let mut k: usize = 1;
    while k < n - 1
        invariant
            3 <= n == chars.len(),
            chars@ == token@,
            token@ != special_name(0) && token@ != special_name(1),
            token@ != special_name(2) && token@ != special_name(3),
            1 <= k <= n - 1,
            forall|j: int| 1 <= j < k ==> is_digit(#[trigger] chars@[j]),
        decreases n - 1 - k,
    {
        let c = chars[k];
        if !('0' <= c && c <= '9') {
            assert(!is_digit(chars@[k as int]));
            return false;
        }
        k = k + 1;
    }
    true
}

/// Version tag of byte-level reversible artifacts.
pub const BYTE_LEVEL_V2: &'static str = "byte_level_v2";

/// The artifact declares canonical rank-priority semantics.
pub open spec fn declares_canonical(a: TokenizerArtifact) -> bool {
    a.merge_semantics matches Some(t) && t@ == CANONICAL_BPE_SEMANTICS_V1@
}

/// The artifact's vocabulary entries (none when the field is not a map).
pub open spec fn artifact_entries(a: TokenizerArtifact) -> Seq<(String, TokenId)> {
    match a.vocab {
        VocabField::Entries(entries) => entries@,
        _ => Seq::empty(),
    }
}

/// The artifact's merge items (none when the field is not an array).
pub open spec fn artifact_items(a: TokenizerArtifact) -> Seq<Option<String>> {
    match a.merges {
        MergesField::Items(items) => items@,
        _ => Seq::empty(),
    }
}

/// The vocabulary is a dense map from ids `0..=max` to token strings.
pub open spec fn vocab_ok(a: TokenizerArtifact) -> bool {
    &&& a.vocab is Entries
    &&& artifact_entries(a).len() > 0
    &&& first_duplicate(entry_ids(artifact_entries(a))) is None
    &&& ids_dense(entry_ids(artifact_entries(a)))
}

/// Every merge item is a well-formed rule.
pub open spec fn merges_ok(a: TokenizerArtifact) -> bool {
    a.merges is Items && first_invalid_rule(artifact_items(a)) is None
}

/// The artifact's merge rules in priority order.
pub open spec fn artifact_merges(a: TokenizerArtifact) -> Seq<MergeTriple> {
    artifact_items(a).map_values(|item: Option<String>| parse_rule(item.unwrap()@).unwrap())
}

/// The artifact is byte-level reversible.
pub open spec fn declares_reversible(a: TokenizerArtifact) -> bool {
    a.version matches Some(v) && v@ == BYTE_LEVEL_V2@
}

/// Size of the reverse vocabulary.
pub open spec fn artifact_vocab_size(a: TokenizerArtifact) -> int {
    max_id(entry_ids(artifact_entries(a))) + 1
}

/// The artifact passes every check of [`ElasticTextTokenizer::from_artifact`].
pub open spec fn loads_cleanly(a: TokenizerArtifact) -> bool {
    &&& declares_canonical(a)
    &&& vocab_ok(a)
    &&& merges_ok(a)
    &&& first_bad_special(artifact_entries(a)) is None
    &&& all_bytes_present(artifact_entries(a), declares_reversible(a))
    &&& forall|j: int| 0 <= j < artifact_merges(a).len() ==> !rule_out_of_vocab(#[trigger] artifact_merges(a)[j], artifact_vocab_size(a))
    &&& first_repeated_pair(artifact_merges(a)) is None
}

/// Ids framed by an optional leading `bos` and an optional trailing `eos`.
pub open spec fn framed(bos: TokenId, eos: TokenId, prepend_bos: bool, append_eos: bool, body: Seq<TokenId>) -> Seq<TokenId> {
    (if prepend_bos { seq![bos] } else { Seq::empty() }) + body + (if append_eos { seq![eos] } else { Seq::empty() })
}

/// The ids between the optional frame tokens.
pub open spec fn frame_body(ids: Seq<TokenId>, prepend_bos: bool, append_eos: bool) -> Seq<TokenId> {
    ids.subrange(if prepend_bos { 1int } else { 0int }, ids.len() - if append_eos { 1int } else { 0int })
}

/// `t` holds what the artifact `a` describes: its vocabulary, its merge
/// rules in order, its byte-level flag, and the string of every id.
pub open spec fn loads_as(a: TokenizerArtifact, t: ElasticTextTokenizer) -> bool {
    &&& t.well_formed()
    &&& t.spec_vocab() == artifact_entries(a)
    &&& t.spec_merges() == artifact_merges(a)
    &&& t.spec_reversible() == declares_reversible(a)
    &&& t.spec_rev().len() == artifact_vocab_size(a)
    &&& forall|i: int|
        0 <= i < artifact_entries(a).len() ==> t.spec_rev()[(#[trigger] artifact_entries(a)[i]).1 as int]@
            == artifact_entries(a)[i].0@
}

/// Text-facing rank-priority BPE tokenizer backed by [`ElasticBpeEngine`].
#[derive(Clone)]
pub struct ElasticTextTokenizer {
    vocab: Vec<(String, TokenId)>,
    rev: Vec<String>,
    merges: Vec<MergeTriple>,
    reversible: bool,
    byte_ids: Vec<TokenId>,
    engine: ElasticBpeEngine,
}

impl ElasticTextTokenizer {
    /// Vocabulary entries: token strings with their ids.
    pub closed spec fn spec_vocab(&self) -> Seq<(String, TokenId)> {
        self.vocab@
    }

    /// Token string of every id.
    pub closed spec fn spec_rev(&self) -> Seq<String> {
        self.rev@
    }

    /// Merge rules in priority order.
    pub closed spec fn spec_merges(&self) -> Seq<MergeTriple> {
        self.merges@
    }

    /// Whether base tokens are byte-level units.
    pub closed spec fn spec_reversible(&self) -> bool {
        self.reversible
    }

    pub closed spec fn spec_profile(&self) -> ElasticProfile {
        self.engine.spec_profile()
    }

    /// The engine holds the merge rules and every byte has its base token.
    pub closed spec fn well_formed(&self) -> bool {
        &&& self.engine.well_formed()
        &&& self.engine.rules() == ordered_rule_map(self.merges@)
        &&& self.byte_ids.len() == 256
        &&& forall|b: u8| lookup(self.vocab@, byte_key(b, self.reversible)) == Some(#[trigger] self.byte_ids@[b as int])
        &&& forall|i: int|
            0 <= i < self.vocab.len() ==> (#[trigger] self.vocab@[i]).1 < self.rev.len()
                && self.rev@[self.vocab@[i].1 as int]@ == self.vocab@[i].0@
        &&& first_bad_special(self.vocab@) is None
    }

    /// Base token id of a byte.
    pub open spec fn byte_id(&self, b: u8) -> TokenId {
        lookup(self.spec_vocab(), byte_key(b, self.spec_reversible())).unwrap()
    }

    /// Base token ids of text bytes.
    pub open spec fn base_ids(&self, bytes: Seq<u8>) -> Seq<TokenId> {
        bytes.map_values(|b: u8| self.byte_id(b))
    }

    /// Id of a named token, or the `<unk>` id 3 when it is not in the vocabulary.
    pub open spec fn spec_special_id(&self, name: Seq<char>) -> TokenId {
        match lookup(self.spec_vocab(), name) {
            Some(id) => id,
            None => 3,
        }
    }

    /// Builds the tokenizer from an artifact that declares canonical
    /// rank-priority semantics. Checks, in order: the semantics tag; the
    /// vocabulary (present, a map, non-empty, no id twice, no id missing up to
    /// the largest); the merge rules (present, an array of rules); the special
    /// tokens; a base token for every byte; the ids of the rules; no pair
    /// merged twice.
    pub fn from_artifact(artifact: TokenizerArtifact, profile: ElasticProfile) -> (result: Result<Self, ElasticTextTokenizerError>)
        requires
            keys_distinct(artifact_entries(artifact)),
            forall|i: int| 0 <= i < artifact_entries(artifact).len() ==> (#[trigger] artifact_entries(artifact)[i]).1 < usize::MAX,
        ensures
            artifact.merge_semantics is None ==> result == Err::<Self, ElasticTextTokenizerError>(ElasticTextTokenizerError::MissingMergeSemantics),
            artifact.merge_semantics matches Some(t) ==> ((forall|s: BpeMergeSemantics| s.spec_tag() != t@) ==> (result matches Err(ElasticTextTokenizerError::UnknownMergeSemantics(v)) && v@ == t@)),
            artifact.merge_semantics matches Some(t) ==> (t@ == LEGACY_BPE_SEMANTICS_V1@ ==> result == Err::<Self, ElasticTextTokenizerError>(ElasticTextTokenizerError::LegacyMergeSemantics)),
            declares_canonical(artifact) && artifact.vocab is Missing ==> (result matches Err(ElasticTextTokenizerError::MissingField(f)) && f@ == "vocab"@),
            declares_canonical(artifact) ==> (artifact.vocab matches VocabField::Invalid(m) ==> result == Err::<Self, ElasticTextTokenizerError>(ElasticTextTokenizerError::Json(m))),
            declares_canonical(artifact) && artifact.vocab is Entries && artifact_entries(artifact).len() == 0 ==> result == Err::<Self, ElasticTextTokenizerError>(ElasticTextTokenizerError::EmptyVocab),
            declares_canonical(artifact) && artifact.vocab is Entries && artifact_entries(artifact).len() > 0 ==> (first_duplicate(entry_ids(artifact_entries(artifact)))
                matches Some(j) ==> result == Err::<Self, ElasticTextTokenizerError>(ElasticTextTokenizerError::DuplicateVocabId(artifact_entries(artifact)[j].1))),
            declares_canonical(artifact) && artifact.vocab is Entries && artifact_entries(artifact).len() > 0 && first_duplicate(entry_ids(artifact_entries(artifact))) is None
                && !ids_dense(entry_ids(artifact_entries(artifact))) ==> (result matches Err(ElasticTextTokenizerError::SparseVocab(m)) && is_first_missing(entry_ids(artifact_entries(artifact)), m as int)),
            declares_canonical(artifact) && vocab_ok(artifact) && artifact.merges is Missing ==> (result matches Err(ElasticTextTokenizerError::MissingField(f)) && f@ == "merges"@),
            declares_canonical(artifact) && vocab_ok(artifact) && artifact.merges is NotArray ==> (result matches Err(ElasticTextTokenizerError::InvalidField(f)) && f@ == "merges"@),
            declares_canonical(artifact) && vocab_ok(artifact) && artifact.merges is Items ==> (first_invalid_rule(artifact_items(artifact)) matches Some(i) ==> result
                == Err::<Self, ElasticTextTokenizerError>(ElasticTextTokenizerError::InvalidMergeRule(i as usize))),
            declares_canonical(artifact) && vocab_ok(artifact) && merges_ok(artifact) ==> (first_bad_special(artifact_entries(artifact)) matches Some(i) ==> (result
                matches Err(ElasticTextTokenizerError::InvalidSpecialToken(name)) && name@ == special_name(i))),
            declares_canonical(artifact) && vocab_ok(artifact) && merges_ok(artifact) && first_bad_special(artifact_entries(artifact)) is None
                && !all_bytes_present(artifact_entries(artifact), declares_reversible(artifact)) ==> (result matches Err(ElasticTextTokenizerError::MissingByteToken(b))
                && is_first_missing_byte(artifact_entries(artifact), declares_reversible(artifact), b)),
            declares_canonical(artifact) && vocab_ok(artifact) && merges_ok(artifact) && first_bad_special(artifact_entries(artifact)) is None
                && all_bytes_present(artifact_entries(artifact), declares_reversible(artifact)) && (exists|i: int| is_first_out_of_vocab(artifact_merges(artifact), artifact_vocab_size(artifact), i))
                ==> (result matches Err(ElasticTextTokenizerError::MergeTokenOutOfVocab { rule_index, token_id, vocab_size })
                    && vocab_size == artifact_vocab_size(artifact) && is_first_out_of_vocab(artifact_merges(artifact), artifact_vocab_size(artifact), rule_index as int)
                    && token_id == out_of_vocab_id(artifact_merges(artifact)[rule_index as int], artifact_vocab_size(artifact))),
            declares_canonical(artifact) && vocab_ok(artifact) && merges_ok(artifact) && first_bad_special(artifact_entries(artifact)) is None
                && all_bytes_present(artifact_entries(artifact), declares_reversible(artifact)) && (forall|j: int| 0 <= j < artifact_merges(artifact).len()
                ==> !rule_out_of_vocab(#[trigger] artifact_merges(artifact)[j], artifact_vocab_size(artifact))) ==> (first_repeated_pair(artifact_merges(artifact))
                matches Some(p) ==> (result matches Err(ElasticTextTokenizerError::DuplicateMergeRule(e)) && (e.left, e.right) == p)),
            loads_cleanly(artifact) ==> result is Ok,
            match result {
                Ok(t) => {
                    &&& declares_canonical(artifact) && vocab_ok(artifact) && merges_ok(artifact)
                    &&& first_bad_special(artifact_entries(artifact)) is None
                    &&& all_bytes_present(artifact_entries(artifact), declares_reversible(artifact))
                    &&& forall|j: int| 0 <= j < artifact_merges(artifact).len() ==> !rule_out_of_vocab(#[trigger] artifact_merges(artifact)[j], artifact_vocab_size(artifact))
                    &&& first_repeated_pair(artifact_merges(artifact)) is None
                    &&& loads_as(artifact, t)
                    &&& t.spec_profile() == profile
                },
                Err(_) => true,
            },
    {
        let ghost a = artifact;
        let TokenizerArtifact { merge_semantics, version, vocab, merges: merge_items } = artifact;
        let tag = match &merge_semantics {
            Some(t) => t,
            None => return Err(ElasticTextTokenizerError::MissingMergeSemantics),
        };
        let semantics = match BpeMergeSemantics::parse(tag.as_str()) {
            Ok(s) => s,
            Err(e) => {
                proof {
                    assert(BpeMergeSemantics::LegacyParallelV1.spec_tag() != tag@);
                    assert(BpeMergeSemantics::CanonicalRankV1.spec_tag() != tag@);
                }
                return Err(e);
            },
        };
        if semantics != BpeMergeSemantics::CanonicalRankV1 {
            proof {
                lemma_semantic_tags_differ();
            }
            return Err(ElasticTextTokenizerError::LegacyMergeSemantics);
        }
        proof {
            lemma_semantic_tags_differ();
        }
        let entries = match vocab {
            VocabField::Missing => {
                proof {
                    reveal_strlit("vocab");
                }
                return Err(ElasticTextTokenizerError::MissingField("vocab"));
            },
            VocabField::Invalid(message) => return Err(ElasticTextTokenizerError::Json(message)),
            VocabField::Entries(entries) => entries,
        };
        let rev = match build_reverse_vocab(&entries) {
            Ok(rev) => rev,
            Err(e) => return Err(e),
        };
        let items = match merge_items {
            MergesField::Missing => {
                proof {
                    reveal_strlit("merges");
                }
                return Err(ElasticTextTokenizerError::MissingField("merges"));
            },
            MergesField::NotArray => {
                proof {
                    reveal_strlit("merges");
                }
                return Err(ElasticTextTokenizerError::InvalidField("merges"));
            },
            MergesField::Items(items) => items,
        };
        let merges = match parse_merges(&items) {
            Ok(m) => m,
            Err(e) => return Err(e),
        };
        proof {
            assert(merges@ =~= artifact_merges(a));
        }
        let reversible = match &version {
            Some(v) => same_text(v.as_str(), BYTE_LEVEL_V2),
            None => false,
        };
        match validate_special_tokens(&entries) {
            Ok(()) => {},
            Err(e) => return Err(e),
        }
        let byte_ids = match base_byte_ids(&entries, reversible) {
            Ok(ids) => ids,
            Err(e) => return Err(e),
        };
        match validate_merge_ids(&merges, rev.len()) {
            Ok(()) => {},
            Err(e) => return Err(e),
        }
        let engine = match ElasticBpeEngine::from_ordered_merges(merges.as_slice(), profile) {
            Ok(engine) => engine,
            Err(e) => return Err(ElasticTextTokenizerError::DuplicateMergeRule(e)),
        };
        proof {
            lemma_max_id(entry_ids(entries@));
            assert forall|i: int| 0 <= i < entries.len() implies (#[trigger] entries@[i]).1 < rev.len() by {
                assert(entry_ids(entries@)[i] == entries@[i].1);
            }
        }
        Ok(ElasticTextTokenizer { vocab: entries, rev, merges, reversible, byte_ids, engine })
    }

    pub fn merge_semantics(&self) -> (semantics: BpeMergeSemantics)
        ensures
            semantics == BpeMergeSemantics::CanonicalRankV1,
    {
        BpeMergeSemantics::CanonicalRankV1
    }

    pub fn profile(&self) -> (profile: ElasticProfile)
        ensures
            profile == self.spec_profile(),
    {
        self.engine.profile()
    }

    /// Replaces the execution profile; vocabulary, rules and token ids are
    /// unchanged.
    pub fn set_profile(&mut self, profile: ElasticProfile)
        ensures
            final(self).spec_profile() == profile,
            final(self).spec_vocab() == old(self).spec_vocab(),
            final(self).spec_rev() == old(self).spec_rev(),
            final(self).spec_merges() == old(self).spec_merges(),
            final(self).spec_reversible() == old(self).spec_reversible(),
            final(self).well_formed() == old(self).well_formed(),
    {
        self.engine.set_profile(profile);
    }

    pub fn ordered_merges(&self) -> (merges: &[MergeTriple])
        ensures
            merges@ == self.spec_merges(),
    {
        self.merges.as_slice()
    }

    pub fn vocab_size(&self) -> (size: usize)
        ensures
            size == self.spec_vocab().len(),
    {
        self.vocab.len()
    }

    /// Id of a named token; `<unk>`'s id 3 when the vocabulary lacks it.
    pub fn special_id(&self, name: &str) -> (id: TokenId)
        ensures
            id == self.spec_special_id(name@),
    {
        match find_id(&self.vocab, name) {
            Some(id) => id,
            None => 3,
        }
    }

    /// Encodes the complete text as one BPE piece. Execution classes choose
    /// only the reduction kernel; they introduce no boundaries.
    pub fn encode(&self, text: &str) -> (encoded: ElasticEncoding)
        requires
            self.well_formed(),
        ensures
            encoded.class == self.spec_profile().spec_thresholds().spec_classify(text.spec_bytes().len() as usize),
            encoded.requested_kernel == self.spec_profile().spec_kernel_for(text.spec_bytes().len() as usize),
            encoded.executed_kernel == executed_kernel_for(encoded.requested_kernel, text.spec_bytes().len()),
            encoded.executed_kernel != BpeKernel::Indexed || text.spec_bytes().len() <= u32::MAX
                ==> encoded.ids@ == canonical_encode(
                ordered_rule_map(self.spec_merges()),
                self.base_ids(text.spec_bytes()),
            ),
    {
        let base = self.base_id_vec(text);
        self.engine.encode_ids(base.as_slice(), text.len())
    }

    fn base_id_vec(&self, text: &str) -> (ids: Vec<TokenId>)
        requires
            self.well_formed(),
        ensures
            ids@ == self.base_ids(text.spec_bytes()),
    {
        let bytes = text.as_bytes();
        let mut ids: Vec<TokenId> = Vec::new();
        let mut i: usize = 0;
        while i < bytes.len()
            invariant
                self.well_formed(),
                i <= bytes.len(),
                bytes@ == text.spec_bytes(),
                ids@ == self.base_ids(bytes@.take(i as int)),
            decreases bytes.len() - i,
        {
            let b = bytes[i];
            assert(self.byte_ids@[b as int] == self.byte_id(b));
            ids.push(self.byte_ids[b as usize]);
            assert(ids@ =~= self.base_ids(bytes@.take(i + 1)));
            i = i + 1;
        }
        assert(bytes@.take(bytes.len() as int) =~= bytes@);
        ids
    }

    /// Encodes the text, optionally between `<bos>` and `<eos>`.
    pub fn encode_with_special(&self, text: &str, prepend_bos: bool, append_eos: bool) -> (ids: Vec<TokenId>)
        requires
            self.well_formed(),
        ensures
            ids@ == framed(
                self.spec_special_id(special_name(1)),
                self.spec_special_id(special_name(2)),
                prepend_bos,
                append_eos,
                frame_body(ids@, prepend_bos, append_eos),
            ),
            (executed_kernel_for(
                self.spec_profile().spec_kernel_for(text.spec_bytes().len() as usize),
                text.spec_bytes().len(),
            ) != BpeKernel::Indexed || text.spec_bytes().len() <= u32::MAX) ==> frame_body(ids@, prepend_bos, append_eos)
                == canonical_encode(ordered_rule_map(self.spec_merges()), self.base_ids(text.spec_bytes())),
            prepend_bos ==> ids@.len() > 0 && ids@[0] == self.spec_special_id(special_name(1)),
            append_eos ==> ids@.len() > 0 && ids@.last() == self.spec_special_id(special_name(2)),
            (executed_kernel_for(
                self.spec_profile().spec_kernel_for(text.spec_bytes().len() as usize),
                text.spec_bytes().len(),
            ) != BpeKernel::Indexed || text.spec_bytes().len() <= u32::MAX) ==> ids@.len() == canonical_encode(
                ordered_rule_map(self.spec_merges()),
                self.base_ids(text.spec_bytes()),
            ).len() + (if prepend_bos { 1int } else { 0int }) + (if append_eos { 1int } else { 0int }),
    {
        let mut ids: Vec<TokenId> = Vec::new();
        if prepend_bos {
            ids.push(self.special_id(special_token(1)));
        }
        let encoded = self.encode(text);
        let ghost prefix = ids@;
        let mut body = encoded.ids;
        ids.append(&mut body);
        let ghost middle = encoded.ids@;
        if append_eos {
            ids.push(self.special_id(special_token(2)));
        }
        proof {
            let pre = if prepend_bos { seq![self.spec_special_id(special_name(1))] } else { Seq::<TokenId>::empty() };
            let post = if append_eos { seq![self.spec_special_id(special_name(2))] } else { Seq::<TokenId>::empty() };
            assert(prefix =~= pre);
            assert(ids@ =~= pre + middle + post);
            assert(frame_body(ids@, prepend_bos, append_eos) =~= middle);
            if prepend_bos {
                assert(ids@[0] == pre[0]);
            }
            if append_eos {
                assert(ids@.last() == post[0]);
            }
        }
        ids
    }

    /// Decodes ids to text. Byte-level reversible vocabularies turn the units
    /// of every non-special token back into bytes and read them as UTF-8;
    /// others concatenate the token strings that stand for text. Unknown ids
    /// contribute nothing.
    pub fn decode(&self, ids: &[TokenId]) -> (text: String)
        ensures
            self.spec_reversible() ==> text@ == utf8_lossy_of(reversible_bytes(self.spec_rev(), ids@)),
            self.spec_reversible() ==> text@ == utf8_lossy_of(reversible_bytes(self.spec_rev(), text_ids(ids@))),
            self.spec_reversible() && vstd::utf8::valid_utf8(reversible_bytes(self.spec_rev(), ids@))
                ==> text@ == vstd::utf8::decode_utf8(reversible_bytes(self.spec_rev(), ids@)),
            !self.spec_reversible() ==> text@ == legacy_text(self.spec_rev(), ids@),
    {
        if self.reversible {
            let mut bytes: Vec<u8> = Vec::new();
            let mut i: usize = 0;
            while i < ids.len()
                invariant
                    i <= ids.len(),
                    bytes@ == reversible_bytes(self.rev@, ids@.take(i as int)),
                decreases ids.len() - i,
            {
                let id = ids[i];
                let ghost before = bytes@;
                let ghost pre = ids@.take(i + 1);
                assert(pre.drop_last() =~= ids@.take(i as int));
                assert(pre.last() == id);
                if id >= SPECIAL_TOKEN_COUNT && id < self.rev.len() {
                    let chars = chars_of(self.rev[id].as_str());
                    let mut k: usize = 0;
                    while k < chars.len()
                        invariant
                            k <= chars.len(),
                            bytes@ == before + unit_bytes(chars@.take(k as int)),
                        decreases chars.len() - k,
                    {
                        let ghost ck = chars@.take(k + 1);
                        assert(ck.drop_last() =~= chars@.take(k as int));
                        assert(ck.last() == chars@[k as int]);
                        match unit_to_byte(chars[k]) {
                            Some(b) => {
                                proof {
                                    let c = chars@[k as int];
                                    let b2 = choose|b2: u8| spec_byte_unit(b2) == c;
                                    crate::byte_units::lemma_byte_unit_injective(b, b2);
                                    assert(unit_byte(c) == Some(b));
                                }
                                bytes.push(b);
                                assert(bytes@ =~= before + unit_bytes(chars@.take(k + 1)));
                            },
                            None => {
                                assert(unit_byte(chars@[k as int]) is None);
                                assert(bytes@ =~= before + unit_bytes(chars@.take(k + 1)));
                            },
                        }
                        k = k + 1;
                    }
                    assert(chars@.take(chars.len() as int) =~= chars@);
                }
                assert(bytes@ =~= reversible_bytes(self.rev@, pre));
                i = i + 1;
            }
            assert(ids@.take(ids.len() as int) =~= ids@);
            proof {
                lemma_special_ids_decode_to_nothing(self.rev@, ids@);
            }
            return utf8_lossy(bytes.as_slice());
        }
        let mut output = String::new();
        let mut i: usize = 0;
        while i < ids.len()
            invariant
                i <= ids.len(),
                output@ == legacy_text(self.rev@, ids@.take(i as int)),
            decreases ids.len() - i,
        {
            let id = ids[i];
            let ghost before = output@;
            let ghost pre = ids@.take(i + 1);
            assert(pre.drop_last() =~= ids@.take(i as int));
            assert(pre.last() == id);
            if id < self.rev.len() && !legacy_non_text(&self.rev[id]) {
                let chars = chars_of(self.rev[id].as_str());
                let mut k: usize = 0;
                while k < chars.len()
                    invariant
                        k <= chars.len(),
                        output@ == before + chars@.take(k as int),
                    decreases chars.len() - k,
                {
                    push_char(&mut output, chars[k]);
                    assert(output@ =~= before + chars@.take(k + 1));
                    k = k + 1;
                }
                assert(chars@.take(chars.len() as int) =~= chars@);
            }
            assert(output@ =~= legacy_text(self.rev@, pre));
            i = i + 1;
        }
        assert(ids@.take(ids.len() as int) =~= ids@);
        output
    }
}


/// Every merge joins two text tokens (neither special nor out of range) into
/// a text token whose string is the two strings one after the other.
pub open spec fn merges_concatenate(strings: Seq<Seq<char>>, merges: Seq<MergeTriple>) -> bool {
    forall|j: int|
        0 <= j < merges.len() ==> {
            let m = #[trigger] merges[j];
            &&& 4 <= m.0 < strings.len()
            &&& 4 <= m.1 < strings.len()
            &&& 4 <= m.2 < strings.len()
            &&& strings[m.2 as int] == strings[m.0 as int] + strings[m.1 as int]
        }
}

/// The id found for a key is that of an entry holding the key.
proof fn lemma_lookup_found(entries: Seq<(String, TokenId)>, key: Seq<char>)
    requires
        lookup(entries, key) is Some,
    ensures
        exists|i: int|
            0 <= i < entries.len() && (#[trigger] entries[i]).0@ == key && entries[i].1 == lookup(
                entries,
                key,
            ).unwrap(),
    decreases entries.len(),
{
    if entries.last().0@ != key {
        lemma_lookup_found(entries.drop_last(), key);
        let i = choose|i: int|
            0 <= i < entries.drop_last().len() && (#[trigger] entries.drop_last()[i]).0@ == key
                && entries.drop_last()[i].1 == lookup(entries.drop_last(), key).unwrap();
        assert(entries[i] == entries.drop_last()[i]);
    } else {
        assert(entries[entries.len() - 1] == entries.last());
    }
}

/// The units of two strings one after the other are the units of each.
proof fn lemma_unit_bytes_concat(s: Seq<char>, t: Seq<char>)
    ensures
        unit_bytes(s + t) == unit_bytes(s) + unit_bytes(t),
    decreases t.len(),
{
    if t.len() == 0 {
        assert(s + t =~= s);
        assert(unit_bytes(s) + unit_bytes(t) =~= unit_bytes(s));
    } else {
        lemma_unit_bytes_concat(s, t.drop_last());
        assert((s + t).drop_last() =~= s + t.drop_last());
        assert((s + t).last() == t.last());
        assert(unit_bytes(s + t) =~= unit_bytes(s) + unit_bytes(t));
    }
}

/// Decoding two id sequences one after the other gives the bytes of each.
proof fn lemma_reversible_bytes_concat(rev: Seq<String>, a: Seq<TokenId>, b: Seq<TokenId>)
    ensures
        reversible_bytes(rev, a + b) == reversible_bytes(rev, a) + reversible_bytes(rev, b),
    decreases b.len(),
{
    if b.len() == 0 {
        assert(a + b =~= a);
        assert(reversible_bytes(rev, a) + reversible_bytes(rev, b) =~= reversible_bytes(rev, a));
    } else {
        lemma_reversible_bytes_concat(rev, a, b.drop_last());
        assert((a + b).drop_last() =~= a + b.drop_last());
        assert((a + b).last() == b.last());
        assert(reversible_bytes(rev, a + b) =~= reversible_bytes(rev, a) + reversible_bytes(rev, b));
    }
}

/// A merge whose output stands for the bytes of its two inputs keeps the
/// decoded bytes.
proof fn lemma_merge_keeps_bytes(rev: Seq<String>, ids: Seq<TokenId>, p: int, o: TokenId)
    requires
        0 <= p,
        p + 1 < ids.len(),
        token_bytes(rev, o) == token_bytes(rev, ids[p]) + token_bytes(rev, ids[p + 1]),
    ensures
        reversible_bytes(rev, apply_merge_at(ids, p, o)) == reversible_bytes(rev, ids),
{
    let pre = ids.take(p);
    let post = ids.skip(p + 2);
    let pair = seq![ids[p], ids[p + 1]];
    let one = seq![o];
    assert(ids =~= (pre + pair) + post);
    assert(apply_merge_at(ids, p, o) =~= (pre + one) + post);
    lemma_reversible_bytes_concat(rev, pre + pair, post);
    lemma_reversible_bytes_concat(rev, pre, pair);
    lemma_reversible_bytes_concat(rev, pre + one, post);
    lemma_reversible_bytes_concat(rev, pre, one);
    assert(one.drop_last() =~= Seq::<TokenId>::empty());
    assert(pair.drop_last() =~= seq![ids[p]]);
    assert(seq![ids[p]].drop_last() =~= Seq::<TokenId>::empty());
    assert(reversible_bytes(rev, Seq::<TokenId>::empty()) =~= Seq::<u8>::empty());
    assert(one.last() == o);
    assert(reversible_bytes(rev, one) =~= token_bytes(rev, o));
    assert(reversible_bytes(rev, seq![ids[p]]) =~= token_bytes(rev, ids[p]));
    assert(reversible_bytes(rev, pair) =~= token_bytes(rev, ids[p]) + token_bytes(rev, ids[p + 1]));
    assert(reversible_bytes(rev, apply_merge_at(ids, p, o)) =~= reversible_bytes(rev, ids));
}

/// Every rule's output stands for the bytes of its pair.
spec fn rules_keep_bytes(rev: Seq<String>, rules: RuleMap) -> bool {
    forall|k: (TokenId, TokenId)|
        #[trigger] rules.contains_key(k) ==> token_bytes(rev, rules[k].1) == token_bytes(rev, k.0)
            + token_bytes(rev, k.1)
}

/// Canonical encoding keeps the decoded bytes when every rule does.
proof fn lemma_canonical_keeps_bytes(rev: Seq<String>, rules: RuleMap, ids: Seq<TokenId>)
    requires
        rules_keep_bytes(rev, rules),
    ensures
        reversible_bytes(rev, canonical_encode(rules, ids)) == reversible_bytes(rev, ids),
    decreases ids.len(),
{
    if exists|p: int| is_best_merge(rules, ids, p) {
        let p = choose|p: int| is_best_merge(rules, ids, p);
        let o = output_at(rules, ids, p);
        assert(rules.contains_key((ids[p], ids[p + 1])));
        lemma_merge_keeps_bytes(rev, ids, p, o);
        lemma_canonical_keeps_bytes(rev, rules, apply_merge_at(ids, p, o));
    }
}

/// The rule of a key is a rule of the table for that pair.
proof fn lemma_rule_map_output(merges: Seq<MergeTriple>, k: (TokenId, TokenId))
    requires
        ordered_rule_map(merges).contains_key(k),
    ensures
        exists|j: int|
            0 <= j < merges.len() && merge_pair(#[trigger] merges[j]) == k && ordered_rule_map(merges)[k].1
                == merges[j].2,
    decreases merges.len(),
{
    let n = merges.len() - 1;
    if merge_pair(merges.last()) == k {
        assert(merges[n] == merges.last());
    } else {
        lemma_rule_map_output(merges.drop_last(), k);
        let j = choose|j: int|
            0 <= j < merges.drop_last().len() && merge_pair(#[trigger] merges.drop_last()[j]) == k
                && ordered_rule_map(merges.drop_last())[k].1 == merges.drop_last()[j].2;
        assert(merges[j] == merges.drop_last()[j]);
    }
}

/// Merges whose strings concatenate give rules that keep the decoded bytes.
proof fn lemma_concatenating_rules_keep_bytes(rev: Seq<String>, merges: Seq<MergeTriple>)
    requires
        merges_concatenate(strings_view(rev), merges),
    ensures
        rules_keep_bytes(rev, ordered_rule_map(merges)),
{
    let rules = ordered_rule_map(merges);
    assert forall|k: (TokenId, TokenId)| #[trigger] rules.contains_key(k) implies token_bytes(rev, rules[k].1)
        == token_bytes(rev, k.0) + token_bytes(rev, k.1) by {
        lemma_rule_map_output(merges, k);
        let j = choose|j: int|
            0 <= j < merges.len() && merge_pair(#[trigger] merges[j]) == k && rules[k].1 == merges[j].2;
        let m = merges[j];
        let sv = strings_view(rev);
        assert(sv[m.0 as int] == rev[m.0 as int]@);
        assert(sv[m.1 as int] == rev[m.1 as int]@);
        assert(sv[m.2 as int] == rev[m.2 as int]@);
        lemma_unit_bytes_concat(rev[m.0 as int]@, rev[m.1 as int]@);
    }
}

impl ElasticTextTokenizer {
    /// In a byte-level reversible tokenizer the base token of a byte decodes
    /// to that byte.
    proof fn lemma_byte_token_bytes(&self, b: u8)
        requires
            self.well_formed(),
            self.spec_reversible(),
        ensures
            token_bytes(self.spec_rev(), self.byte_id(b)) == seq![b],
    {
        let vocab = self.vocab@;
        let key = byte_key(b, true);
        assert(lookup(vocab, key) == Some(self.byte_ids@[b as int]));
        lemma_lookup_found(vocab, key);
        let i = choose|i: int| 0 <= i < vocab.len() && (#[trigger] vocab[i]).0@ == key && vocab[i].1 == lookup(vocab, key).unwrap();
        let id = vocab[i].1;
        assert(self.rev@[id as int]@ == seq![spec_byte_unit(b)]);
        if id < 4 {
            let k = id as int;
            assert(lookup(vocab, special_name(k)) == Some(id));
            lemma_lookup_found(vocab, special_name(k));
            let i2 = choose|i2: int|
                0 <= i2 < vocab.len() && (#[trigger] vocab[i2]).0@ == special_name(k) && vocab[i2].1
                    == lookup(vocab, special_name(k)).unwrap();
            assert(self.rev@[id as int]@ == special_name(k));
            assert(special_name(k).len() == 5);
        }
        let c = spec_byte_unit(b);
        let b2 = choose|b2: u8| spec_byte_unit(b2) == c;
        crate::byte_units::lemma_byte_unit_injective(b, b2);
        assert(unit_byte(c) == Some(b));
        assert(seq![c].drop_last() =~= Seq::<char>::empty());
        assert(unit_bytes(Seq::<char>::empty()) =~= Seq::<u8>::empty());
        assert(seq![c].last() == c);
        assert(unit_bytes(seq![c]) =~= seq![b]);
    }

    /// The base tokens of bytes decode back to those bytes.
    proof fn lemma_base_ids_decode(&self, bytes: Seq<u8>)
        requires
            self.well_formed(),
            self.spec_reversible(),
        ensures
            reversible_bytes(self.spec_rev(), self.base_ids(bytes)) == bytes,
        decreases bytes.len(),
    {
        if bytes.len() == 0 {
            assert(self.base_ids(bytes) =~= Seq::<TokenId>::empty());
        } else {
            let b = bytes.last();
            self.lemma_base_ids_decode(bytes.drop_last());
            self.lemma_byte_token_bytes(b);
            assert(self.base_ids(bytes).drop_last() =~= self.base_ids(bytes.drop_last()));
            assert(self.base_ids(bytes).last() == self.byte_id(b));
            assert(bytes =~= bytes.drop_last() + seq![b]);
        }
    }
}

/// Decoding gives back the encoded text. In a byte-level reversible
/// tokenizer whose merges each join the strings of two text tokens (as
/// training writes them), the canonical encoding of a text's UTF-8 bytes
/// decodes to exactly those bytes, which read as UTF-8 give the text.
pub proof fn lemma_decode_inverts_encode(t: ElasticTextTokenizer, text: Seq<char>)
    requires
        t.well_formed(),
        t.spec_reversible(),
        merges_concatenate(strings_view(t.spec_rev()), t.spec_merges()),
    ensures
        reversible_bytes(
            t.spec_rev(),
            canonical_encode(ordered_rule_map(t.spec_merges()), t.base_ids(vstd::utf8::encode_utf8(text))),
        ) == vstd::utf8::encode_utf8(text),
        vstd::utf8::valid_utf8(vstd::utf8::encode_utf8(text)),
        vstd::utf8::decode_utf8(vstd::utf8::encode_utf8(text)) == text,
{
    let bytes = vstd::utf8::encode_utf8(text);
    lemma_concatenating_rules_keep_bytes(t.spec_rev(), t.spec_merges());
    lemma_canonical_keeps_bytes(t.spec_rev(), ordered_rule_map(t.spec_merges()), t.base_ids(bytes));
    t.lemma_base_ids_decode(bytes);
    vstd::utf8::encode_utf8_valid_utf8(text);
    vstd::utf8::encode_utf8_decode_utf8(text);
}


/// Ids that are not special tokens.
pub open spec fn text_ids(ids: Seq<TokenId>) -> Seq<TokenId> {
    ids.filter(|id: TokenId| id >= 4)
}

/// Special tokens (`<pad>`, `<bos>`, `<eos>`, `<unk>`, ids `0..4`) decode to
/// no bytes: a single special id decodes to nothing, and removing every
/// special id from a sequence leaves its decoded bytes unchanged.
pub proof fn lemma_special_ids_decode_to_nothing(rev: Seq<String>, ids: Seq<TokenId>)
    ensures
        reversible_bytes(rev, ids) == reversible_bytes(rev, text_ids(ids)),
        forall|id: TokenId| id < 4 ==> #[trigger] reversible_bytes(rev, seq![id]) == Seq::<u8>::empty(),
    decreases ids.len(),
{
    assert forall|id: TokenId| id < 4 implies #[trigger] reversible_bytes(rev, seq![id]) == Seq::<u8>::empty() by {
        assert(seq![id].drop_last() =~= Seq::<TokenId>::empty());
        assert(reversible_bytes(rev, Seq::<TokenId>::empty()) =~= Seq::<u8>::empty());
        assert(reversible_bytes(rev, seq![id]) =~= Seq::<u8>::empty());
    }
    if ids.len() > 0 {
        lemma_special_ids_decode_to_nothing(rev, ids.drop_last());
        reveal(Seq::filter);
        assert(text_ids(ids) == (if ids.last() >= 4 {
            text_ids(ids.drop_last()).push(ids.last())
        } else {
            text_ids(ids.drop_last())
        }));
        if ids.last() >= 4 {
            let f = text_ids(ids.drop_last()).push(ids.last());
            assert(f.drop_last() =~= text_ids(ids.drop_last()));
            assert(reversible_bytes(rev, f) =~= reversible_bytes(rev, ids));
        } else {
            assert(reversible_bytes(rev, ids) =~= reversible_bytes(rev, ids.drop_last()));
        }
    } else {
        reveal(Seq::filter);
        assert(text_ids(ids) =~= ids);
    }
}


/// Framing puts `<bos>` first exactly when asked, `<eos>` last exactly when
/// asked, each independently of the other, and the body unchanged between
/// them.
pub proof fn lemma_framed_shape(bos: TokenId, eos: TokenId, prepend_bos: bool, append_eos: bool, body: Seq<TokenId>)
    ensures
        framed(bos, eos, prepend_bos, append_eos, body).len() == body.len() + (if prepend_bos { 1int } else { 0int })
            + (if append_eos { 1int } else { 0int }),
        prepend_bos ==> framed(bos, eos, prepend_bos, append_eos, body)[0] == bos,
        !prepend_bos && body.len() > 0 ==> framed(bos, eos, prepend_bos, append_eos, body)[0] == body[0],
        append_eos ==> framed(bos, eos, prepend_bos, append_eos, body).last() == eos,
        !append_eos && body.len() > 0 ==> framed(bos, eos, prepend_bos, append_eos, body).last() == body.last(),
        frame_body(framed(bos, eos, prepend_bos, append_eos, body), prepend_bos, append_eos) == body,
{
    let f = framed(bos, eos, prepend_bos, append_eos, body);
    let pre = if prepend_bos { seq![bos] } else { Seq::<TokenId>::empty() };
    let post = if append_eos { seq![eos] } else { Seq::<TokenId>::empty() };
    assert(f == pre + body + post);
    assert(frame_body(f, prepend_bos, append_eos) =~= body);
    if !append_eos && body.len() > 0 {
        assert(f.last() == f[f.len() - 1]);
        assert(f[f.len() - 1] == body[body.len() - 1]);
    }
}

} // verus!
