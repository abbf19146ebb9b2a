//! Sequential rank-priority BPE training for canonical ElasticTokenizer artifacts.
//!
//! This trainer learns exactly one merge per iteration, applies that merge
//! globally, then recounts adjacent pairs. The resulting merge vector is
//! therefore itself the canonical rank order consumed by the elastic text
//! tokenizer.

use std::collections::BTreeMap;

use vstd::prelude::*;

use crate::byte_units::push_char;
use vstd::utf8::encode_utf8;

use crate::bpe_semantics::{MergeTriple, TokenId, has_duplicate_pair, lemma_first_repeated_pair, merge_pair, pair_le};
use crate::decimal_text::{lemma_rule_text_roundtrip, rule_string, rule_text};
use crate::elastic_profile_store::CANONICAL_BPE_SEMANTICS_V1;
use crate::elastic_text_tokenizer::{
    BYTE_LEVEL_V2, MergesField, TokenizerArtifact, VocabField, artifact_entries, artifact_merges, entry_ids,
    ElasticTextTokenizer, artifact_vocab_size, keys_distinct, lemma_decode_inverts_encode, lemma_distinct_ids,
    lemma_lookup_distinct, lemma_max_id, loads_as, loads_cleanly, merges_concatenate, reversible_bytes,
    special_name,
};
use crate::bpe_semantics::{canonical_encode, ordered_rule_map};
use crate::byte_units::{byte_to_unit, lemma_byte_unit_injective, spec_byte_unit};

verus! {

/// Number of special tokens (`<pad>`, `<bos>`, `<eos>`, `<unk>`), ids `0..4`.
pub const SPECIAL_TOKEN_COUNT: usize = 4;

/// Number of byte tokens, ids `4..260`.
pub const BASE_BYTE_TOKENS: usize = 256;

/// Size of the base vocabulary: the special tokens and every byte.
pub const BASE_VOCAB_SIZE: usize = 260;

/// The token strings of the base vocabulary, indexed by id.
pub open spec fn base_vocab_units() -> Seq<Seq<char>> {
    seq![
        seq!['<', 'p', 'a', 'd', '>'],
        seq!['<', 'b', 'o', 's', '>'],
        seq!['<', 'e', 'o', 's', '>'],
        seq!['<', 'u', 'n', 'k', '>'],
    ] + Seq::new(256, |i: int| seq![spec_byte_unit(i as u8)])
}

/// The strings of a vocabulary vector.
pub open spec fn strings_view(v: Seq<String>) -> Seq<Seq<char>> {
    v.map_values(|s: String| s@)
}

/// Number of occurrences of the adjacent pair `p` in one word.
pub open spec fn word_pair_count(w: Seq<TokenId>, p: (TokenId, TokenId)) -> nat
    decreases w.len(),
{
    if w.len() < 2 {
        0
    } else {
        word_pair_count(w.drop_last(), p) + if (w[w.len() - 2], w[w.len() - 1]) == p {
            1nat
        } else {
            0nat
        }
    }
}

/// Number of occurrences of the adjacent pair `p` in a corpus of words.
pub open spec fn pair_count(c: Seq<Seq<TokenId>>, p: (TokenId, TokenId)) -> nat
    decreases c.len(),
{
    if c.len() == 0 {
        0
    } else {
        pair_count(c.drop_last(), p) + word_pair_count(c.last(), p)
    }
}

/// Total number of tokens of a corpus.
pub open spec fn total_len(c: Seq<Seq<TokenId>>) -> nat
    decreases c.len(),
{
    if c.len() == 0 {
        0
    } else {
        total_len(c.drop_last()) + c.last().len()
    }
}

/// `p` is the pair a training step learns: it occurs at least `min` times
/// (and at least once), and every other such pair occurs fewer times or as
/// often with a larger `(left, right)` id pair.
pub open spec fn is_best_pair(c: Seq<Seq<TokenId>>, min: nat, p: (TokenId, TokenId)) -> bool {
    &&& pair_count(c, p) > 0
    &&& pair_count(c, p) >= min
    &&& forall|q: (TokenId, TokenId)|
        pair_count(c, q) > 0 && #[trigger] pair_count(c, q) >= min ==> pair_count(c, p)
            > pair_count(c, q) || (pair_count(c, p) == pair_count(c, q) && pair_le(p, q))
}

/// The pair a training step learns, if any pair qualifies.
pub open spec fn best_pair(c: Seq<Seq<TokenId>>, min: nat) -> Option<(TokenId, TokenId)> {
    if exists|p: (TokenId, TokenId)| is_best_pair(c, min, p) {
        Some(choose|p: (TokenId, TokenId)| is_best_pair(c, min, p))
    } else {
        None
    }
}

/// One word after replacing, left to right and without overlap, every
/// occurrence of `(left, right)` by `output`.
pub open spec fn merge_word(w: Seq<TokenId>, left: TokenId, right: TokenId, output: TokenId) -> Seq<
    TokenId,
>
    decreases w.len(),
{
    if w.len() < 2 {
        w
    } else if w[0] == left && w[1] == right {
        seq![output] + merge_word(w.skip(2), left, right, output)
    } else {
        seq![w[0]] + merge_word(w.skip(1), left, right, output)
    }
}

/// Every word of a corpus after one merge.
pub open spec fn merge_corpus(c: Seq<Seq<TokenId>>, left: TokenId, right: TokenId, output: TokenId) -> Seq<
    Seq<TokenId>,
> {
    c.map_values(|w: Seq<TokenId>| merge_word(w, left, right, output))
}

/// Base token ids of the texts: each byte `b` becomes id `b + 4`.
pub open spec fn initial_corpus(texts: Seq<String>) -> Seq<Seq<TokenId>> {
    texts.map_values(|t: String| encode_utf8(t@).map_values(|b: u8| (b + 4) as TokenId))
}

/// Outcome of training from a state: the final vocabulary and merges, or the
/// pair and string of a merge whose token string is already in the vocabulary.
pub open spec fn train_from(
    corpus: Seq<Seq<TokenId>>,
    vocab: Seq<Seq<char>>,
    merges: Seq<MergeTriple>,
    target: nat,
    min: nat,
) -> Result<(Seq<Seq<char>>, Seq<MergeTriple>), (TokenId, TokenId, Seq<char>)>
    decreases target - vocab.len(),
{
    if vocab.len() >= target {
        Ok((vocab, merges))
    } else {
        match best_pair(corpus, min) {
            None => Ok((vocab, merges)),
            Some(p) => {
                let token = vocab[p.0 as int] + vocab[p.1 as int];
                if vocab.contains(token) {
                    Err((p.0, p.1, token))
                } else {
                    let output = vocab.len() as TokenId;
                    train_from(
                        merge_corpus(corpus, p.0, p.1, output),
                        vocab.push(token),
                        merges.push((p.0, p.1, output)),
                        target,
                        min,
                    )
                }
            },
        }
    }
}

/// Every token id of the corpus names a vocabulary entry.
pub open spec fn ids_below(c: Seq<Seq<TokenId>>, bound: int) -> bool {
    forall|i: int, j: int| 0 <= i < c.len() && 0 <= j < c[i].len() ==> #[trigger] c[i][j] < bound
}

/// The entries of a vocabulary are distinct.
pub open spec fn distinct_strings(v: Seq<Seq<char>>) -> bool {
    forall|i: int, j: int| 0 <= i < j < v.len() ==> v[i] != v[j]
}

/// `a` holds a trained vocabulary and merge list as a tokenizer artifact:
/// byte-level reversible, canonical rank-priority semantics, every token
/// string with its id, and each merge as its three ids in decimal.
pub open spec fn describes_training(a: TokenizerArtifact, vocab: Seq<Seq<char>>, merges: Seq<MergeTriple>) -> bool {
    &&& a.merge_semantics matches Some(t) && t@ == CANONICAL_BPE_SEMANTICS_V1@
    &&& a.version matches Some(v) && v@ == BYTE_LEVEL_V2@
    &&& a.vocab matches VocabField::Entries(entries) && entries.len() == vocab.len()
        && forall|i: int| 0 <= i < entries.len() ==> (#[trigger] entries@[i]).0@ == vocab[i] && entries@[i].1 == i
    &&& a.merges matches MergesField::Items(items) && items.len() == merges.len()
        && forall|i: int| 0 <= i < items.len() ==> ((#[trigger] items@[i]) matches Some(text) && text@ == rule_text(merges[i]))
}

/// Serialized result of canonical sequential BPE training.
#[derive(Clone, Debug, PartialEq, Eq)]
pub struct CanonicalBpeArtifact {
    vocab: Vec<String>,
    merges: Vec<MergeTriple>,
}

impl CanonicalBpeArtifact {
    /// Token strings, indexed by id.
    pub closed spec fn spec_vocab(&self) -> Seq<Seq<char>> {
        strings_view(self.vocab@)
    }

    pub closed spec fn spec_merges(&self) -> Seq<MergeTriple> {
        self.merges@
    }

    /// Number of vocabulary entries.
    pub fn vocab_size(&self) -> (n: usize)
        ensures
            n == self.spec_vocab().len(),
    {
        self.vocab.len()
    }

    pub fn ordered_merges(&self) -> (m: &[MergeTriple])
        ensures
            m@ == self.spec_merges(),
    {
        self.merges.as_slice()
    }

    /// The artifact as the fields of a canonical tokenizer artifact:
    /// byte-level reversible, canonical rank-priority semantics, every token
    /// string with its id, and each merge as its three ids in decimal.
    pub fn tokenizer_artifact(&self) -> (a: TokenizerArtifact)
        ensures
            describes_training(a, self.spec_vocab(), self.spec_merges()),
    {
        let mut entries: Vec<(String, TokenId)> = Vec::new();
        let mut i: usize = 0;
        while i < self.vocab.len()
            invariant
                i <= self.vocab.len(),
                entries.len() == i,
                forall|j: int| 0 <= j < i ==> (#[trigger] entries@[j]).0@ == self.vocab@[j]@ && entries@[j].1 == j,
            decreases self.vocab.len() - i,
        {
            entries.push((self.vocab[i].clone(), i));
            i = i + 1;
        }
        let mut items: Vec<Option<String>> = Vec::new();
        let mut k: usize = 0;
        while k < self.merges.len()
            invariant
                k <= self.merges.len(),
                items.len() == k,
                forall|j: int| 0 <= j < k ==> ((#[trigger] items@[j]) matches Some(text) && text@ == rule_text(self.merges@[j])),
            decreases self.merges.len() - k,
        {
            items.push(Some(rule_string(self.merges[k])));
            k = k + 1;
        }
        TokenizerArtifact {
            merge_semantics: Some(CANONICAL_BPE_SEMANTICS_V1.to_owned()),
            version: Some(BYTE_LEVEL_V2.to_owned()),
            vocab: VocabField::Entries(entries),
            merges: MergesField::Items(items),
        }
    }

    /// The token strings, indexed by id.
    pub fn token_strings(&self) -> (v: &[String])
        ensures
            strings_view(v@) == self.spec_vocab(),
    {
        self.vocab.as_slice()
    }
}

/// Why canonical training cannot produce an artifact.
#[derive(Clone, Debug, PartialEq, Eq)]
pub enum CanonicalBpeTrainError {
    VocabTooSmall { requested: usize, minimum: usize },
    DuplicateTokenString { left: TokenId, right: TokenId, token: String },
}

/// Canonical one-merge-at-a-time BPE trainer.
#[derive(Clone, Copy, Debug, PartialEq, Eq, Structural)]
pub struct CanonicalBpeTrainer {
    vocab_size: usize,
    min_frequency: u64,
}

impl CanonicalBpeTrainer {
    pub closed spec fn spec_vocab_size(self) -> usize {
        self.vocab_size
    }

    pub closed spec fn spec_min_frequency(self) -> u64 {
        self.min_frequency
    }

    /// A trainer for `vocab_size` entries with minimum pair frequency 2; the
    /// size must cover the special tokens and every byte.
    pub fn new(vocab_size: usize) -> (result: Result<Self, CanonicalBpeTrainError>)
        ensures
            match result {
                Ok(t) => vocab_size >= BASE_VOCAB_SIZE && t.spec_vocab_size() == vocab_size
                    && t.spec_min_frequency() == 2,
                Err(e) => vocab_size < BASE_VOCAB_SIZE && e == (
                CanonicalBpeTrainError::VocabTooSmall {
                    requested: vocab_size,
                    minimum: BASE_VOCAB_SIZE,
                }),
            },
    {
        if vocab_size < BASE_VOCAB_SIZE {
            return Err(
                CanonicalBpeTrainError::VocabTooSmall {
                    requested: vocab_size,
                    minimum: BASE_VOCAB_SIZE,
                },
            );
        }
        Ok(CanonicalBpeTrainer { vocab_size, min_frequency: 2 })
    }

    /// The same trainer with another minimum pair frequency.
    pub fn min_frequency(self, min_frequency: u64) -> (t: Self)
        ensures
            t.spec_vocab_size() == self.spec_vocab_size(),
            t.spec_min_frequency() == min_frequency,
    {
        CanonicalBpeTrainer { vocab_size: self.vocab_size, min_frequency }
    }
}


/// An occurrence of the pair `p` in word `i` ends at position `j`.
pub open spec fn pair_at(c: Seq<Seq<TokenId>>, p: (TokenId, TokenId), i: int, j: int) -> bool {
    0 <= i < c.len() && 1 <= j < c[i].len() && c[i][j - 1] == p.0 && c[i][j] == p.1
}

proof fn lemma_word_count_bound(w: Seq<TokenId>, p: (TokenId, TokenId))
    ensures
        word_pair_count(w, p) <= w.len(),
    decreases w.len(),
{
    if w.len() >= 2 {
        lemma_word_count_bound(w.drop_last(), p);
    }
}

proof fn lemma_count_bound(c: Seq<Seq<TokenId>>, p: (TokenId, TokenId))
    ensures
        pair_count(c, p) <= total_len(c),
    decreases c.len(),
{
    if c.len() > 0 {
        lemma_count_bound(c.drop_last(), p);
        lemma_word_count_bound(c.last(), p);
    }
}

proof fn lemma_total_len_prefix(c: Seq<Seq<TokenId>>, k: int)
    requires
        0 <= k <= c.len(),
    ensures
        total_len(c.take(k)) <= total_len(c),
    decreases c.len(),
{
    if k < c.len() {
        assert(c.drop_last().take(k) =~= c.take(k));
        lemma_total_len_prefix(c.drop_last(), k);
    } else {
        assert(c.take(k) =~= c);
    }
}

/// A word with an occurrence of `p` counts it.
proof fn lemma_word_occurrence(w: Seq<TokenId>, p: (TokenId, TokenId), j: int)
    requires
        1 <= j < w.len(),
        w[j - 1] == p.0,
        w[j] == p.1,
    ensures
        word_pair_count(w, p) > 0,
    decreases w.len(),
{
    if j < w.len() - 1 {
        lemma_word_occurrence(w.drop_last(), p, j);
    }
}

/// A counted pair occurs in some word.
proof fn lemma_word_occurs(w: Seq<TokenId>, p: (TokenId, TokenId)) -> (j: int)
    requires
        word_pair_count(w, p) > 0,
    ensures
        1 <= j < w.len(),
        w[j - 1] == p.0,
        w[j] == p.1,
    decreases w.len(),
{
    if (w[w.len() - 2], w[w.len() - 1]) == p {
        w.len() - 1
    } else {
        let j = lemma_word_occurs(w.drop_last(), p);
        j
    }
}

/// Pairs counted in the corpus are exactly the pairs that occur in it.
proof fn lemma_count_occurrence(c: Seq<Seq<TokenId>>, p: (TokenId, TokenId))
    ensures
        pair_count(c, p) > 0 <==> exists|i: int, j: int| #[trigger] pair_at(c, p, i, j),
    decreases c.len(),
{
    if c.len() > 0 {
        let prefix = c.drop_last();
        lemma_count_occurrence(prefix, p);
        let n = c.len() - 1;
        if pair_count(c, p) > 0 {
            if pair_count(prefix, p) > 0 {
                let (i, j) = choose|i: int, j: int| #[trigger] pair_at(prefix, p, i, j);
                assert(c[i] == prefix[i]);
                assert(pair_at(c, p, i, j));
            } else {
                let j = lemma_word_occurs(c.last(), p);
                assert(pair_at(c, p, n, j));
            }
        }
        if exists|i: int, j: int| #[trigger] pair_at(c, p, i, j) {
            let (i, j) = choose|i: int, j: int| #[trigger] pair_at(c, p, i, j);
            if i < n {
                assert(prefix[i] == c[i]);
                assert(pair_at(prefix, p, i, j));
            } else {
                lemma_word_occurrence(c.last(), p, j);
            }
        }
    }
}

/// At most one pair is the best pair.
proof fn lemma_best_pair_unique(c: Seq<Seq<TokenId>>, min: nat, p: (TokenId, TokenId), q: (TokenId, TokenId))
    requires
        is_best_pair(c, min, p),
        is_best_pair(c, min, q),
    ensures
        p == q,
{
    assert(pair_count(c, q) >= min);
    assert(pair_count(c, p) >= min);
}

proof fn lemma_merge_word_shape(w: Seq<TokenId>, left: TokenId, right: TokenId, output: TokenId, bound: int)
    requires
        forall|j: int| 0 <= j < w.len() ==> w[j] < bound,
        output < bound,
    ensures
        merge_word(w, left, right, output).len() <= w.len(),
        forall|j: int|
            0 <= j < merge_word(w, left, right, output).len() ==> #[trigger] merge_word(
                w,
                left,
                right,
                output,
            )[j] < bound,
    decreases w.len(),
{
    if w.len() >= 2 {
        if w[0] == left && w[1] == right {
            lemma_merge_word_shape(w.skip(2), left, right, output, bound);
        } else {
            lemma_merge_word_shape(w.skip(1), left, right, output, bound);
        }
    }
}

/// The pair `q` stands at positions `j - 1` and `j` of a word.
pub open spec fn adjacent_at(w: Seq<TokenId>, q: (TokenId, TokenId), j: int) -> bool {
    1 <= j < w.len() && w[j - 1] == q.0 && w[j] == q.1
}

/// The pair `q` stands somewhere in a word.
pub open spec fn word_has(w: Seq<TokenId>, q: (TokenId, TokenId)) -> bool {
    exists|j: int| #[trigger] adjacent_at(w, q, j)
}

/// The first token of a merged word.
proof fn lemma_merge_word_head(w: Seq<TokenId>, left: TokenId, right: TokenId, output: TokenId)
    requires
        w.len() >= 1,
    ensures
        merge_word(w, left, right, output).len() >= 1,
        merge_word(w, left, right, output)[0] == (if w.len() >= 2 && w[0] == left && w[1] == right {
            output
        } else {
            w[0]
        }),
{
}

/// A pair stands in `seq![x] + rest` at its start, or in `rest`.
proof fn lemma_word_has_cons(x: TokenId, rest: Seq<TokenId>, q: (TokenId, TokenId))
    requires
        word_has(seq![x] + rest, q),
    ensures
        (rest.len() >= 1 && x == q.0 && rest[0] == q.1) || word_has(rest, q),
{
    let w = seq![x] + rest;
    let j = choose|j: int| #[trigger] adjacent_at(w, q, j);
    if j >= 2 {
        assert(adjacent_at(rest, q, j - 1));
    }
}

/// A pair absent from a word is absent from its suffixes.
proof fn lemma_word_has_skip(w: Seq<TokenId>, q: (TokenId, TokenId), k: int)
    requires
        0 <= k <= w.len(),
        word_has(w.skip(k), q),
    ensures
        word_has(w, q),
{
    let j = choose|j: int| #[trigger] adjacent_at(w.skip(k), q, j);
    assert(adjacent_at(w, q, j + k));
}

/// After merging `(left, right)` into a fresh `output`, a pair not naming
/// `output` stands in the word only if it stood there before; and
/// `(left, right)` itself no longer stands anywhere.
proof fn lemma_merge_word_pairs(
    w: Seq<TokenId>,
    left: TokenId,
    right: TokenId,
    output: TokenId,
    q: (TokenId, TokenId),
)
    requires
        output != q.0,
        output != q.1,
        q == (left, right) || !word_has(w, q),
    ensures
        !word_has(merge_word(w, left, right, output), q),
    decreases w.len(),
{
    let m = merge_word(w, left, right, output);
    if w.len() < 2 {
        if word_has(m, q) {
            let j = choose|j: int| #[trigger] adjacent_at(m, q, j);
        }
    } else if w[0] == left && w[1] == right {
        let rest = w.skip(2);
        if word_has(rest, q) {
            lemma_word_has_skip(w, q, 2);
        }
        lemma_merge_word_pairs(rest, left, right, output, q);
        assert(m == seq![output] + merge_word(rest, left, right, output));
        if word_has(m, q) {
            lemma_word_has_cons(output, merge_word(rest, left, right, output), q);
        }
    } else {
        let rest = w.skip(1);
        if word_has(rest, q) {
            lemma_word_has_skip(w, q, 1);
        }
        lemma_merge_word_pairs(rest, left, right, output, q);
        let mr = merge_word(rest, left, right, output);
        assert(m == seq![w[0]] + mr);
        lemma_merge_word_head(rest, left, right, output);
        if word_has(m, q) {
            lemma_word_has_cons(w[0], mr, q);
            if mr[0] != output {
                assert(mr[0] == w[1]);
                assert(adjacent_at(w, q, 1));
            }
        }
    }
}

/// The corpus-level form of [`lemma_merge_word_pairs`].
proof fn lemma_merge_corpus_pairs(
    c: Seq<Seq<TokenId>>,
    left: TokenId,
    right: TokenId,
    output: TokenId,
    q: (TokenId, TokenId),
)
    requires
        output != q.0,
        output != q.1,
        q == (left, right) || forall|i: int, j: int| !#[trigger] pair_at(c, q, i, j),
    ensures
        forall|i: int, j: int| !#[trigger] pair_at(merge_corpus(c, left, right, output), q, i, j),
{
    let mc = merge_corpus(c, left, right, output);
    assert forall|i: int, j: int| !#[trigger] pair_at(mc, q, i, j) by {
        if pair_at(mc, q, i, j) {
            if q != (left, right) && word_has(c[i], q) {
                let k = choose|k: int| #[trigger] adjacent_at(c[i], q, k);
                assert(pair_at(c, q, i, k));
            }
            lemma_merge_word_pairs(c[i], left, right, output, q);
            assert(adjacent_at(mc[i], q, j));
        }
    }
}

/// Merging keeps every id below a bound above `output`, and never lengthens
/// the corpus.
proof fn lemma_merge_corpus_shape(
    c: Seq<Seq<TokenId>>,
    left: TokenId,
    right: TokenId,
    output: TokenId,
    bound: int,
)
    requires
        ids_below(c, bound),
        output < bound,
    ensures
        ids_below(merge_corpus(c, left, right, output), bound),
        total_len(merge_corpus(c, left, right, output)) <= total_len(c),
    decreases c.len(),
{
    let m = merge_corpus(c, left, right, output);
    assert forall|i: int, j: int| 0 <= i < m.len() && 0 <= j < m[i].len() implies #[trigger] m[i][j]
        < bound by {
        lemma_merge_word_shape(c[i], left, right, output, bound);
    }
    if c.len() > 0 {
        let prefix = c.drop_last();
        assert(ids_below(prefix, bound)) by {
            assert forall|i: int, j: int| 0 <= i < prefix.len() && 0 <= j < prefix[i].len() implies #[trigger] prefix[i][j]
                < bound by {
                assert(prefix[i] == c[i]);
            }
        }
        lemma_merge_corpus_shape(prefix, left, right, output, bound);
        assert(merge_corpus(prefix, left, right, output) =~= m.drop_last());
        lemma_merge_word_shape(c.last(), left, right, output, bound);
    }
}

/// The base vocabulary has distinct entries.
proof fn lemma_base_vocab_distinct()
    ensures
        distinct_strings(base_vocab_units()),
        base_vocab_units().len() == BASE_VOCAB_SIZE,
{
    let v = base_vocab_units();
    assert forall|i: int, j: int| 0 <= i < j < v.len() implies v[i] != v[j] by {
        if j >= 4 {
            if i >= 4 {
                if v[i] == v[j] {
                    assert(v[i][0] == spec_byte_unit((i - 4) as u8));
                    assert(v[j][0] == spec_byte_unit((j - 4) as u8));
                    lemma_byte_unit_injective((i - 4) as u8, (j - 4) as u8);
                }
            } else {
                assert(v[i].len() == 5);
                assert(v[j].len() == 1);
            }
        } else {
            assert(v[i][1] != v[j][1]);
        }
    }
}

/// Builds the base vocabulary strings.
fn base_vocab() -> (vocab: Vec<String>)
    ensures
        strings_view(vocab@) == base_vocab_units(),
{
    let mut vocab: Vec<String> = Vec::new();
    let pad = "<pad>";
    let bos = "<bos>";
    let eos = "<eos>";
    let unk = "<unk>";
    proof {
        reveal_strlit("<pad>");
        reveal_strlit("<bos>");
        reveal_strlit("<eos>");
        reveal_strlit("<unk>");
    }
    vocab.push(pad.to_owned());
    vocab.push(bos.to_owned());
    vocab.push(eos.to_owned());
    vocab.push(unk.to_owned());
    let mut b: usize = 0;
    while b < BASE_BYTE_TOKENS
        invariant
            b <= BASE_BYTE_TOKENS,
            vocab.len() == SPECIAL_TOKEN_COUNT + b,
            forall|i: int|
                0 <= i < vocab.len() ==> #[trigger] vocab@[i]@ == base_vocab_units()[i],
        decreases BASE_BYTE_TOKENS - b,
    {
        let mut unit = String::new();
        push_char(&mut unit, byte_to_unit(b as u8));
        vocab.push(unit);
        proof {
            assert(unit@ =~= seq![spec_byte_unit(b as u8)]);
        }
        b = b + 1;
    }
    assert(strings_view(vocab@) =~= base_vocab_units());
    vocab
}

/// Whether the vocabulary already holds `token`.
fn contains_token(vocab: &Vec<String>, token: &String) -> (found: bool)
    ensures
        found == strings_view(vocab@).contains(token@),
{
    let mut i: usize = 0;
    while i < vocab.len()
        invariant
            i <= vocab.len(),
            forall|j: int| 0 <= j < i ==> vocab@[j]@ != token@,
        decreases vocab.len() - i,
    {
        if vocab[i] == *token {
            proof {
                assert(strings_view(vocab@)[i as int] == token@);
            }
            return true;
        }
        i = i + 1;
    }
    proof {
        if strings_view(vocab@).contains(token@) {
            let j = choose|j: int| 0 <= j < strings_view(vocab@).len() && strings_view(vocab@)[j] == token@;
            assert(vocab@[j]@ == token@);
        }
    }
    false
}

/// The concatenation of two token strings.
fn concat_tokens(left: &String, right: &String) -> (token: String)
    ensures
        token@ == left@ + right@,
{
    let mut token = left.clone();
    let right_str = right.as_str();
    for c in it: right_str.chars()
        invariant
            token@ == left@ + it.seq().take(it.index() as int),
    {
        push_char(&mut token, c);
        proof {
            assert(token@ =~= left@ + it.seq().take(it.index() as int + 1));
        }
    }
    proof {
        vstd::string::axiom_spec_iter(right_str);
    }
    token
}

/// Base token ids of the texts.
fn initial_ids(texts: &[String]) -> (corpus: Vec<Vec<TokenId>>)
    ensures
        corpus@.map_values(|w: Vec<TokenId>| w@) == initial_corpus(texts@),
{
    let mut corpus: Vec<Vec<TokenId>> = Vec::new();
    let mut t: usize = 0;
    while t < texts.len()
        invariant
            t <= texts.len(),
            corpus.len() == t,
            forall|i: int|
                0 <= i < t ==> #[trigger] corpus@[i]@ == initial_corpus(texts@)[i],
        decreases texts.len() - t,
    {
        let bytes = texts[t].as_str().as_bytes();
        let mut ids: Vec<TokenId> = Vec::new();
        let mut k: usize = 0;
        while k < bytes.len()
            invariant
                k <= bytes.len(),
                ids@ == bytes@.take(k as int).map_values(|b: u8| (b + 4) as TokenId),
            decreases bytes.len() - k,
        {
            ids.push(SPECIAL_TOKEN_COUNT + bytes[k] as usize);
            k = k + 1;
            assert(ids@ =~= bytes@.take(k as int).map_values(|b: u8| (b + 4) as TokenId));
        }
        assert(bytes@.take(bytes.len() as int) =~= bytes@);
        corpus.push(ids);
        t = t + 1;
    }
    assert(corpus@.map_values(|w: Vec<TokenId>| w@) =~= initial_corpus(texts@));
    corpus
}

/// The view of a corpus.
pub open spec fn corpus_view(c: Seq<Vec<TokenId>>) -> Seq<Seq<TokenId>> {
    c.map_values(|w: Vec<TokenId>| w@)
}

/// Counts every adjacent pair of the corpus.
fn count_pairs(corpus: &Vec<Vec<TokenId>>) -> (counts: BTreeMap<(TokenId, TokenId), u64>)
    requires
        total_len(corpus_view(corpus@)) <= u64::MAX,
    ensures
        forall|p: (TokenId, TokenId)|
            #[trigger] counts@.contains_key(p) <==> pair_count(corpus_view(corpus@), p) > 0,
        forall|p: (TokenId, TokenId)|
            #[trigger] counts@.contains_key(p) ==> counts@[p] == pair_count(
                corpus_view(corpus@),
                p,
            ),
{
    let ghost c = corpus_view(corpus@);
    let mut counts: BTreeMap<(TokenId, TokenId), u64> = BTreeMap::new();
    let mut w: usize = 0;
    assert(c.take(0) =~= Seq::<Seq<TokenId>>::empty());
    while w < corpus.len()
        invariant
            c == corpus_view(corpus@),
            total_len(c) <= u64::MAX,
            w <= corpus.len(),
            forall|p: (TokenId, TokenId)|
                #[trigger] counts@.contains_key(p) <==> pair_count(c.take(w as int), p) > 0,
            forall|p: (TokenId, TokenId)|
                #[trigger] counts@.contains_key(p) ==> counts@[p] == pair_count(
                    c.take(w as int),
                    p,
                ),
        decreases corpus.len() - w,
    {
        let tokens = &corpus[w];
        let ghost word = tokens@;
        let ghost before = c.take(w as int);
        assert(c.take(w + 1).drop_last() =~= before);
        assert(c.take(w + 1).last() == word);
        proof {
            lemma_total_len_prefix(c, w + 1);
        }
        if tokens.len() >= 2 {
            let mut j: usize = 1;
            proof {
                assert forall|p: (TokenId, TokenId)| word_pair_count(#[trigger] word.take(1), p) == 0 by {}
            }
            while j < tokens.len()
                invariant
                    c == corpus_view(corpus@),
                    total_len(c) <= u64::MAX,
                    w < corpus.len(),
                    word == tokens@,
                    word == c[w as int],
                    before == c.take(w as int),
                    total_len(before) + word.len() <= total_len(c),
                    1 <= j <= tokens.len(),
                    forall|p: (TokenId, TokenId)|
                        #[trigger] counts@.contains_key(p) <==> pair_count(before, p)
                            + word_pair_count(word.take(j as int), p) > 0,
                    forall|p: (TokenId, TokenId)|
                        #[trigger] counts@.contains_key(p) ==> counts@[p] == pair_count(before, p)
                            + word_pair_count(word.take(j as int), p),
                decreases tokens.len() - j,
            {
                let p = (tokens[j - 1], tokens[j]);
                let ghost prefix = word.take(j + 1);
                assert(prefix.drop_last() =~= word.take(j as int));
                assert(prefix[prefix.len() - 2] == word[j - 1] && prefix[prefix.len() - 1] == word[j as int]);
                proof {
                    lemma_count_bound(before, p);
                    lemma_word_count_bound(word.take(j as int), p);
                }
                let current: u64 = match counts.get(&p) {
                    Some(count) => *count,
                    None => 0,
                };
                counts.insert(p, current + 1);
                j = j + 1;
            }
            proof {
                assert(word.take(j as int) =~= word);
            }
        }
        w = w + 1;
    }
    assert(c.take(corpus.len() as int) =~= c);
    counts
}

/// The pair the next training step learns.
fn select_best_pair(
    corpus: &Vec<Vec<TokenId>>,
    counts: &BTreeMap<(TokenId, TokenId), u64>,
    min_frequency: u64,
) -> (best: Option<(TokenId, TokenId)>)
    requires
        forall|p: (TokenId, TokenId)|
            #[trigger] counts@.contains_key(p) <==> pair_count(corpus_view(corpus@), p) > 0,
        forall|p: (TokenId, TokenId)|
            #[trigger] counts@.contains_key(p) ==> counts@[p] == pair_count(
                corpus_view(corpus@),
                p,
            ),
    ensures
        best == best_pair(corpus_view(corpus@), min_frequency as nat),
{
    let ghost c = corpus_view(corpus@);
    let ghost min = min_frequency as nat;
    let mut best: Option<((TokenId, TokenId), u64)> = None;
    let mut w: usize = 0;
    while w < corpus.len()
        invariant
            c == corpus_view(corpus@),
            min == min_frequency as nat,
            w <= corpus.len(),
            forall|p: (TokenId, TokenId)|
                #[trigger] counts@.contains_key(p) <==> pair_count(c, p) > 0,
            forall|p: (TokenId, TokenId)|
                #[trigger] counts@.contains_key(p) ==> counts@[p] == pair_count(c, p),
            match best {
                Some((bp, bc)) => bc == pair_count(c, bp) && pair_count(c, bp) > 0 && bc >= min,
                None => true,
            },
            forall|q: (TokenId, TokenId), a: int, b: int|
                #[trigger] pair_at(c, q, a, b) && a < w && pair_count(c, q) >= min ==> match best {
                    Some((bp, bc)) => pair_count(c, bp) > pair_count(c, q) || (pair_count(c, bp)
                        == pair_count(c, q) && pair_le(bp, q)),
                    None => false,
                },
        decreases corpus.len() - w,
    {
        let tokens = &corpus[w];
        let mut j: usize = 1;
        while j < tokens.len()
            invariant
                c == corpus_view(corpus@),
                min == min_frequency as nat,
                w < corpus.len(),
                tokens@ == c[w as int],
                1 <= j,
                forall|p: (TokenId, TokenId)|
                    #[trigger] counts@.contains_key(p) <==> pair_count(c, p) > 0,
                forall|p: (TokenId, TokenId)|
                    #[trigger] counts@.contains_key(p) ==> counts@[p] == pair_count(c, p),
                match best {
                    Some((bp, bc)) => bc == pair_count(c, bp) && pair_count(c, bp) > 0 && bc >= min,
                    None => true,
                },
                forall|q: (TokenId, TokenId), a: int, b: int|
                    #[trigger] pair_at(c, q, a, b) && (a < w || (a == w && b < j)) && pair_count(c, q)
                        >= min ==> match best {
                        Some((bp, bc)) => pair_count(c, bp) > pair_count(c, q) || (pair_count(
                            c,
                            bp,
                        ) == pair_count(c, q) && pair_le(bp, q)),
                        None => false,
                    },
            decreases tokens.len() - j,
        {
            let p = (tokens[j - 1], tokens[j]);
            proof {
                assert(pair_at(c, p, w as int, j as int));
                lemma_count_occurrence(c, p);
            }
            let count: u64 = match counts.get(&p) {
                Some(count) => *count,
                None => {
                    proof {
                        assert(false);
                    }
                    0
                },
            };
            if count >= min_frequency {
                let better = match best {
                    Some((bp, bc)) => count > bc || (count == bc && (p.0 < bp.0 || (p.0 == bp.0
                        && p.1 < bp.1))),
                    None => true,
                };
                if better {
                    best = Some((p, count));
                }
            }
            j = j + 1;
        }
        w = w + 1;
    }
    match best {
        Some((bp, _)) => {
            proof {
                assert forall|q: (TokenId, TokenId)|
                    pair_count(c, q) > 0 && #[trigger] pair_count(c, q) >= min implies pair_count(
                    c,
                    bp,
                ) > pair_count(c, q) || (pair_count(c, bp) == pair_count(c, q) && pair_le(
                    bp,
                    q,
                )) by {
                    lemma_count_occurrence(c, q);
                    let (a, b) = choose|a: int, b: int| #[trigger] pair_at(c, q, a, b);
                }
                assert(is_best_pair(c, min, bp));
                let chosen = choose|p: (TokenId, TokenId)| is_best_pair(c, min, p);
                lemma_best_pair_unique(c, min, bp, chosen);
            }
            Some(bp)
        },
        None => {
            proof {
                if exists|p: (TokenId, TokenId)| is_best_pair(c, min, p) {
                    let p = choose|p: (TokenId, TokenId)| is_best_pair(c, min, p);
                    lemma_count_occurrence(c, p);
                    let (a, b) = choose|a: int, b: int| #[trigger] pair_at(c, p, a, b);
                }
            }
            None
        },
    }
}

/// Replaces, left to right and without overlap, every occurrence of
/// `(left, right)` in `tokens` by `output`, in place.
pub fn apply_one_merge(tokens: &mut Vec<TokenId>, left: TokenId, right: TokenId, output: TokenId)
    ensures
        final(tokens)@ == merge_word(old(tokens)@, left, right, output),
{
    if tokens.len() < 2 {
        return ;
    }
    let ghost orig = tokens@;
    let len = tokens.len();
    let mut write: usize = 0;
    let mut read: usize = 0;
    assert(orig.skip(0) =~= orig);
    assert(tokens@.take(0) =~= Seq::<TokenId>::empty());
    while read < len
        invariant
            orig == old(tokens)@,
            len == orig.len(),
            tokens.len() == len,
            write <= read <= len,
            forall|k: int| read <= k < len ==> tokens@[k] == orig[k],
            tokens@.take(write as int) + merge_word(orig.skip(read as int), left, right, output)
                == merge_word(orig, left, right, output),
        decreases len - read,
    {
        let ghost rest = orig.skip(read as int);
        if read + 1 < len && tokens[read] == left && tokens[read + 1] == right {
            proof {
                assert(rest[0] == left && rest[1] == right);
                assert(rest.skip(2) =~= orig.skip(read + 2));
            }
            tokens.set(write, output);
            proof {
                assert(tokens@.take(write + 1) =~= tokens@.take(write as int).push(output));
            }
            write = write + 1;
            read = read + 2;
            proof {
                let lhs = tokens@.take(write as int) + merge_word(orig.skip(read as int), left, right, output);
                assert(lhs =~= merge_word(orig, left, right, output));
            }
        } else {
            let value = tokens[read];
            proof {
                assert(rest[0] == value);
                assert(rest.skip(1) =~= orig.skip(read + 1));
                if rest.len() < 2 {
                    assert(merge_word(orig.skip(read + 1), left, right, output) =~= Seq::<TokenId>::empty());
                    assert(rest =~= seq![value]);
                }
            }
            tokens.set(write, value);
            write = write + 1;
            read = read + 1;
            proof {
                let lhs = tokens@.take(write as int) + merge_word(orig.skip(read as int), left, right, output);
                assert(lhs =~= merge_word(orig, left, right, output));
            }
        }
    }
    proof {
        assert(orig.skip(len as int) =~= Seq::<TokenId>::empty());
        assert(tokens@.take(write as int) =~= merge_word(orig, left, right, output));
    }
    tokens.truncate(write);
}

impl CanonicalBpeTrainer {
    /// Learns merges one at a time: the most frequent adjacent pair (at least
    /// the minimum frequency; ties to the smaller id pair) becomes the next
    /// token, and every text is merged before the next count.
    pub fn train(&self, texts: &[String]) -> (result: Result<
        CanonicalBpeArtifact,
        CanonicalBpeTrainError,
    >)
        requires
            total_len(initial_corpus(texts@)) <= u64::MAX,
        ensures
            match result {
                Ok(a) => train_from(
                    initial_corpus(texts@),
                    base_vocab_units(),
                    Seq::empty(),
                    self.spec_vocab_size() as nat,
                    self.spec_min_frequency() as nat,
                ) == Ok::<(Seq<Seq<char>>, Seq<MergeTriple>), (TokenId, TokenId, Seq<char>)>(
                    (a.spec_vocab(), a.spec_merges()),
                ),
                Err(CanonicalBpeTrainError::DuplicateTokenString { left, right, token }) => train_from(
                    initial_corpus(texts@),
                    base_vocab_units(),
                    Seq::empty(),
                    self.spec_vocab_size() as nat,
                    self.spec_min_frequency() as nat,
                ) == Err::<(Seq<Seq<char>>, Seq<MergeTriple>), (TokenId, TokenId, Seq<char>)>(
                    (left, right, token@),
                ),
                Err(CanonicalBpeTrainError::VocabTooSmall { .. }) => false,
            },
    {
        let target = self.vocab_size;
        let ghost min = self.min_frequency as nat;
        let mut vocab = base_vocab();
        let mut corpus = initial_ids(texts);
        let mut merges: Vec<MergeTriple> = Vec::new();
        let ghost init = train_from(
            initial_corpus(texts@),
            base_vocab_units(),
            Seq::empty(),
            target as nat,
            min,
        );
        proof {
            lemma_initial_state(texts@);
            assert(corpus_view(corpus@) == initial_corpus(texts@));
        }
        loop
            invariant
                target == self.vocab_size,
                min == self.min_frequency as nat,
                init == train_from(
                    initial_corpus(texts@),
                    base_vocab_units(),
                    Seq::empty(),
                    target as nat,
                    min,
                ),
                init == train_from(
                    corpus_view(corpus@),
                    strings_view(vocab@),
                    merges@,
                    target as nat,
                    min,
                ),
                ids_below(corpus_view(corpus@), vocab.len() as int),
                total_len(corpus_view(corpus@)) <= u64::MAX,
                distinct_strings(strings_view(vocab@)),
                vocab.len() >= BASE_VOCAB_SIZE,
            ensures
                init == Ok::<(Seq<Seq<char>>, Seq<MergeTriple>), (TokenId, TokenId, Seq<char>)>(
                    (strings_view(vocab@), merges@),
                ),
            decreases target - vocab.len(),
        {
            if vocab.len() >= target {
                break ;
            }
            let counts = count_pairs(&corpus);
            let best = select_best_pair(&corpus, &counts, self.min_frequency);
            let (left, right) = match best {
                Some(pair) => pair,
                None => {
                    break ;
                },
            };
            proof {
                lemma_count_occurrence(corpus_view(corpus@), (left, right));
                let (a, b) = choose|a: int, b: int| #[trigger] pair_at(
                    corpus_view(corpus@),
                    (left, right),
                    a,
                    b,
                );
                assert(corpus_view(corpus@)[a][b - 1] < vocab.len());
                assert(corpus_view(corpus@)[a][b] < vocab.len());
            }
            let token = concat_tokens(&vocab[left], &vocab[right]);
            proof {
                assert(strings_view(vocab@)[left as int] == vocab@[left as int]@);
                assert(strings_view(vocab@)[right as int] == vocab@[right as int]@);
            }
            if contains_token(&vocab, &token) {
                proof {
                    let v = strings_view(vocab@);
                    assert(v[left as int] + v[right as int] == token@);
                    assert(train_from(corpus_view(corpus@), v, merges@, target as nat, min) == Err::<
                        (Seq<Seq<char>>, Seq<MergeTriple>),
                        (TokenId, TokenId, Seq<char>),
                    >((left, right, token@)));
                }
                return Err(CanonicalBpeTrainError::DuplicateTokenString { left, right, token });
            }
            let output = vocab.len();
            let ghost old_vocab = strings_view(vocab@);
            let ghost old_corpus = corpus_view(corpus@);
            vocab.push(token);
            merges.push((left, right, output));
            let mut i: usize = 0;
            while i < corpus.len()
                invariant
                    i <= corpus.len(),
                    corpus.len() == old_corpus.len(),
                    forall|k: int|
                        0 <= k < i ==> #[trigger] corpus@[k]@ == merge_word(
                            old_corpus[k],
                            left,
                            right,
                            output,
                        ),
                    forall|k: int| i <= k < corpus.len() ==> #[trigger] corpus@[k]@ == old_corpus[k],
                decreases corpus.len() - i,
            {
                let mut word = corpus[i].clone();
                apply_one_merge(&mut word, left, right, output);
                corpus.set(i, word);
                i = i + 1;
            }
            proof {
                assert(corpus_view(corpus@) =~= merge_corpus(old_corpus, left, right, output));
                assert(strings_view(vocab@) =~= old_vocab.push(token@));
                lemma_merge_corpus_shape(old_corpus, left, right, output, vocab.len() as int);
                assert forall|a: int, b: int| 0 <= a < b < strings_view(vocab@).len() implies strings_view(
                    vocab@,
                )[a] != strings_view(vocab@)[b] by {
                    if b == old_vocab.len() {
                        assert(old_vocab[a] == strings_view(vocab@)[a]);
                    } else {
                        assert(old_vocab[a] == strings_view(vocab@)[a]);
                        assert(old_vocab[b] == strings_view(vocab@)[b]);
                    }
                }
            }
        }
        Ok(CanonicalBpeArtifact { vocab, merges })
    }
}

/// Training learns token ids in strict rank order: the merge of rank `i`
/// outputs id `260 + i`.
pub proof fn lemma_train_ids_in_rank_order(
    corpus: Seq<Seq<TokenId>>,
    vocab: Seq<Seq<char>>,
    merges: Seq<MergeTriple>,
    target: nat,
    min: nat,
)
    requires
        vocab.len() == BASE_VOCAB_SIZE + merges.len(),
        target <= usize::MAX,
        forall|i: int| 0 <= i < merges.len() ==> (#[trigger] merges[i]).2 == BASE_VOCAB_SIZE + i,
    ensures
        train_from(corpus, vocab, merges, target, min) matches Ok((v, m)) ==> {
            &&& v.len() == BASE_VOCAB_SIZE + m.len()
            &&& forall|i: int| 0 <= i < m.len() ==> (#[trigger] m[i]).2 == BASE_VOCAB_SIZE + i
        },
    decreases target - vocab.len(),
{
    if vocab.len() < target {
        match best_pair(corpus, min) {
            None => {},
            Some(p) => {
                let token = vocab[p.0 as int] + vocab[p.1 as int];
                if !vocab.contains(token) {
                    let output = vocab.len() as TokenId;
                    let m2 = merges.push((p.0, p.1, output));
                    assert forall|i: int| 0 <= i < m2.len() implies (#[trigger] m2[i]).2
                        == BASE_VOCAB_SIZE + i by {
                        if i < merges.len() {
                            assert(m2[i] == merges[i]);
                        }
                    }
                    lemma_train_ids_in_rank_order(
                        merge_corpus(corpus, p.0, p.1, output),
                        vocab.push(token),
                        m2,
                        target,
                        min,
                    );
                }
            },
        }
    }
}


/// Rule `i` outputs id `260 + i` from two smaller ids.
pub open spec fn rules_fresh(merges: Seq<MergeTriple>) -> bool {
    forall|i: int|
        0 <= i < merges.len() ==> (#[trigger] merges[i]).2 == BASE_VOCAB_SIZE + i && merges[i].0
            < BASE_VOCAB_SIZE + i && merges[i].1 < BASE_VOCAB_SIZE + i
}

/// The vocabulary and merge list that training produces: the base
/// vocabulary followed by one distinct token per merge, fresh output ids in
/// rank order, and no pair merged twice.
pub open spec fn trained_tables(vocab: Seq<Seq<char>>, merges: Seq<MergeTriple>) -> bool {
    &&& vocab.len() == BASE_VOCAB_SIZE + merges.len()
    &&& vocab.len() <= usize::MAX
    &&& forall|i: int| 0 <= i < BASE_VOCAB_SIZE ==> #[trigger] vocab[i] == base_vocab_units()[i]
    &&& distinct_strings(vocab)
    &&& rules_fresh(merges)
    &&& !has_duplicate_pair(merges)
}

/// What every training step keeps: the tables so far, every corpus id inside
/// the vocabulary, and no merged pair left in the corpus.
pub open spec fn training_state(corpus: Seq<Seq<TokenId>>, vocab: Seq<Seq<char>>, merges: Seq<MergeTriple>) -> bool {
    &&& trained_tables(vocab, merges)
    &&& ids_below(corpus, vocab.len() as int)
    &&& forall|k: int, i: int, j: int|
        0 <= k < merges.len() ==> !#[trigger] pair_at(corpus, merge_pair(merges[k]), i, j)
}

/// Training starts from a valid state.
proof fn lemma_initial_state(texts: Seq<String>)
    ensures
        training_state(initial_corpus(texts), base_vocab_units(), Seq::empty()),
{
    lemma_base_vocab_distinct();
    let c = initial_corpus(texts);
    assert forall|i: int, j: int| 0 <= i < c.len() && 0 <= j < c[i].len() implies #[trigger] c[i][j]
        < BASE_VOCAB_SIZE by {
        let bytes = encode_utf8(texts[i]@);
        assert(c[i] == bytes.map_values(|b: u8| (b + 4) as TokenId));
    }
    let m = Seq::<MergeTriple>::empty();
    if has_duplicate_pair(m) {
        let (i, j) = choose|i: int, j: int|
            0 <= i < j < m.len() && #[trigger] merge_pair(m[i]) == #[trigger] merge_pair(m[j]);
    }
}

/// Every training step keeps the state, so a finished training yields
/// trained tables.
proof fn lemma_training_keeps_state(
    corpus: Seq<Seq<TokenId>>,
    vocab: Seq<Seq<char>>,
    merges: Seq<MergeTriple>,
    target: nat,
    min: nat,
)
    requires
        training_state(corpus, vocab, merges),
        target <= usize::MAX,
    ensures
        train_from(corpus, vocab, merges, target, min) matches Ok((v, m)) ==> trained_tables(v, m),
    decreases target - vocab.len(),
{
    if vocab.len() < target {
        match best_pair(corpus, min) {
            None => {},
            Some(p) => {
                let token = vocab[p.0 as int] + vocab[p.1 as int];
                if !vocab.contains(token) {
                    assert(is_best_pair(corpus, min, p));
                    lemma_count_occurrence(corpus, p);
                    let (a, b) = choose|a: int, b: int| #[trigger] pair_at(corpus, p, a, b);
                    assert(corpus[a][b - 1] < vocab.len());
                    assert(corpus[a][b] < vocab.len());
                    let output = vocab.len() as TokenId;
                    let c2 = merge_corpus(corpus, p.0, p.1, output);
                    let v2 = vocab.push(token);
                    let m2 = merges.push((p.0, p.1, output));
                    assert(ids_below(corpus, v2.len() as int));
                    lemma_merge_corpus_shape(corpus, p.0, p.1, output, v2.len() as int);
                    assert forall|k: int, i: int, j: int| 0 <= k < m2.len() implies !#[trigger] pair_at(
                        c2,
                        merge_pair(m2[k]),
                        i,
                        j,
                    ) by {
                        if k < merges.len() {
                            assert(m2[k] == merges[k]);
                            assert(forall|i: int, j: int| !#[trigger] pair_at(corpus, merge_pair(merges[k]), i, j));
                            lemma_merge_corpus_pairs(corpus, p.0, p.1, output, merge_pair(merges[k]));
                        } else {
                            lemma_merge_corpus_pairs(corpus, p.0, p.1, output, (p.0, p.1));
                        }
                    }
                    if has_duplicate_pair(m2) {
                        let (i, j) = choose|i: int, j: int|
                            0 <= i < j < m2.len() && #[trigger] merge_pair(m2[i]) == #[trigger] merge_pair(m2[j]);
                        assert(m2[i] == merges[i]);
                        if j < merges.len() {
                            assert(m2[j] == merges[j]);
                            assert(merge_pair(merges[i]) == merge_pair(merges[j]));
                        } else {
                            assert(merge_pair(merges[i]) == p);
                            assert(!pair_at(corpus, merge_pair(merges[i]), a, b));
                        }
                    }
                    assert forall|i: int| 0 <= i < BASE_VOCAB_SIZE implies #[trigger] v2[i] == base_vocab_units()[i] by {
                        assert(v2[i] == vocab[i]);
                    }
                    assert(distinct_strings(v2)) by {
                        assert forall|i: int, j: int| 0 <= i < j < v2.len() implies v2[i] != v2[j] by {
                            assert(v2[i] == vocab[i]);
                            if j < vocab.len() {
                                assert(v2[j] == vocab[j]);
                            }
                        }
                    }
                    assert(rules_fresh(m2)) by {
                        assert forall|i: int| 0 <= i < m2.len() implies (#[trigger] m2[i]).2 == BASE_VOCAB_SIZE + i && m2[i].0
                            < BASE_VOCAB_SIZE + i && m2[i].1 < BASE_VOCAB_SIZE + i by {
                            if i < merges.len() {
                                assert(m2[i] == merges[i]);
                            }
                        }
                    }
                    lemma_training_keeps_state(c2, v2, m2, target, min);
                }
            },
        }
    }
}

/// The largest id is at most any bound of all ids.
proof fn lemma_max_id_bound(ids: Seq<TokenId>, bound: int)
    requires
        bound >= 0,
        forall|i: int| 0 <= i < ids.len() ==> ids[i] <= bound,
    ensures
        crate::elastic_text_tokenizer::max_id(ids) <= bound,
    decreases ids.len(),
{
    if ids.len() > 0 {
        lemma_max_id_bound(ids.drop_last(), bound);
    }
}

/// Trained tables written as a tokenizer artifact pass every check of the
/// canonical text tokenizer, and its rules are the trained merges.
proof fn lemma_tables_load(a: TokenizerArtifact, vocab: Seq<Seq<char>>, merges: Seq<MergeTriple>)
    requires
        trained_tables(vocab, merges),
        describes_training(a, vocab, merges),
    ensures
        keys_distinct(artifact_entries(a)),
        forall|i: int| 0 <= i < artifact_entries(a).len() ==> (#[trigger] artifact_entries(a)[i]).1 < usize::MAX,
        loads_cleanly(a),
        artifact_merges(a) == merges,
        artifact_vocab_size(a) == vocab.len(),
{
    let entries = artifact_entries(a);
    let n = vocab.len();
    let ids = entry_ids(entries);
    assert(entries.len() == n);
    assert forall|i: int| 0 <= i < n implies #[trigger] ids[i] == i && entries[i].0@ == vocab[i] by {
        assert(entries[i].1 == i);
    }
    assert(keys_distinct(entries)) by {
        assert forall|i: int, j: int| 0 <= i < j < entries.len() implies entries[i].0@ != entries[j].0@ by {
            assert(ids[i] == i && ids[j] == j);
        }
    }
    lemma_distinct_ids(ids);
    lemma_max_id(ids);
    assert(ids[n - 1] == n - 1);
    lemma_max_id_bound(ids, n - 1);
    assert(crate::elastic_text_tokenizer::max_id(ids) == n - 1);
    assert forall|k: TokenId| k <= crate::elastic_text_tokenizer::max_id(ids) implies ids.contains(k) by {
        assert(ids[k as int] == k);
    }
    let items = crate::elastic_text_tokenizer::artifact_items(a);
    assert forall|i: int| 0 <= i < items.len() implies crate::elastic_text_tokenizer::item_is_rule(#[trigger] items[i])
        && crate::elastic_text_tokenizer::parse_rule(items[i].unwrap()@) == Some(merges[i]) by {
        lemma_rule_text_roundtrip(merges[i]);
    }
    assert(artifact_merges(a) =~= merges);
    let bv = base_vocab_units();
    assert forall|k: int| 0 <= k < 4 implies crate::elastic_text_tokenizer::lookup(entries, #[trigger] special_name(k))
        == Some(k as TokenId) by {
        lemma_lookup_distinct(entries, k);
        assert(vocab[k] == bv[k]);
    }
    assert(crate::elastic_text_tokenizer::lookup(entries, special_name(0)) == Some(0usize));
    assert(crate::elastic_text_tokenizer::lookup(entries, special_name(1)) == Some(1usize));
    assert(crate::elastic_text_tokenizer::lookup(entries, special_name(2)) == Some(2usize));
    assert(crate::elastic_text_tokenizer::lookup(entries, special_name(3)) == Some(3usize));
    assert forall|b: u8| !#[trigger] crate::elastic_text_tokenizer::byte_missing(entries, b, true) by {
        let k = b as int + 4;
        lemma_lookup_distinct(entries, k);
        assert(vocab[k] == bv[k]);
        assert(bv[k] == seq![spec_byte_unit(b)]);
    }
    assert forall|j: int| 0 <= j < artifact_merges(a).len() implies !crate::elastic_text_tokenizer::rule_out_of_vocab(
        #[trigger] artifact_merges(a)[j],
        crate::elastic_text_tokenizer::artifact_vocab_size(a),
    ) by {
        assert(artifact_merges(a)[j] == merges[j]);
    }
    lemma_first_repeated_pair(merges);
}

/// Successful training yields an artifact that the canonical text tokenizer
/// loads: written as a tokenizer artifact, the trained vocabulary and merges
/// pass every check of `ElasticTextTokenizer::from_artifact`, and the rules
/// it loads are the trained merges in rank order.
pub proof fn lemma_trained_artifact_loads(
    texts: Seq<String>,
    target: nat,
    min: nat,
    vocab: Seq<Seq<char>>,
    merges: Seq<MergeTriple>,
    a: TokenizerArtifact,
)
    requires
        target <= usize::MAX,
        train_from(initial_corpus(texts), base_vocab_units(), Seq::empty(), target, min) == Ok::<
            (Seq<Seq<char>>, Seq<MergeTriple>),
            (TokenId, TokenId, Seq<char>),
        >((vocab, merges)),
        describes_training(a, vocab, merges),
    ensures
        keys_distinct(artifact_entries(a)),
        forall|i: int| 0 <= i < artifact_entries(a).len() ==> (#[trigger] artifact_entries(a)[i]).1 < usize::MAX,
        loads_cleanly(a),
        artifact_merges(a) == merges,
        artifact_vocab_size(a) == vocab.len(),
{
    lemma_initial_state(texts);
    lemma_training_keeps_state(initial_corpus(texts), base_vocab_units(), Seq::empty(), target, min);
    lemma_tables_load(a, vocab, merges);
}


/// Every token id of the corpus is at least `floor`.
pub open spec fn ids_at_least(c: Seq<Seq<TokenId>>, floor: int) -> bool {
    forall|i: int, j: int| 0 <= i < c.len() && 0 <= j < c[i].len() ==> #[trigger] c[i][j] >= floor
}

proof fn lemma_merge_word_floor(w: Seq<TokenId>, left: TokenId, right: TokenId, output: TokenId, floor: int)
    requires
        forall|j: int| 0 <= j < w.len() ==> w[j] >= floor,
        output >= floor,
    ensures
        forall|j: int|
            0 <= j < merge_word(w, left, right, output).len() ==> #[trigger] merge_word(
                w,
                left,
                right,
                output,
            )[j] >= floor,
    decreases w.len(),
{
    if w.len() >= 2 {
        let r = if w[0] == left && w[1] == right { w.skip(2) } else { w.skip(1) };
        let head = if w[0] == left && w[1] == right { output } else { w[0] };
        lemma_merge_word_floor(r, left, right, output, floor);
        let rest = merge_word(r, left, right, output);
        assert(merge_word(w, left, right, output) == seq![head] + rest);
        assert forall|j: int| 0 <= j < merge_word(w, left, right, output).len() implies #[trigger] merge_word(
            w,
            left,
            right,
            output,
        )[j] >= floor by {
            if j > 0 {
                assert(merge_word(w, left, right, output)[j] == rest[j - 1]);
            }
        }
    }
}

/// What training keeps for the token strings: every merge joins the strings
/// of two text tokens, and every corpus id is a text token of the vocabulary.
spec fn concatenation_state(corpus: Seq<Seq<TokenId>>, vocab: Seq<Seq<char>>, merges: Seq<MergeTriple>) -> bool {
    &&& vocab.len() >= SPECIAL_TOKEN_COUNT
    &&& merges_concatenate(vocab, merges)
    &&& ids_below(corpus, vocab.len() as int)
    &&& ids_at_least(corpus, SPECIAL_TOKEN_COUNT as int)
}

proof fn lemma_training_concatenates(
    corpus: Seq<Seq<TokenId>>,
    vocab: Seq<Seq<char>>,
    merges: Seq<MergeTriple>,
    target: nat,
    min: nat,
)
    requires
        concatenation_state(corpus, vocab, merges),
        target <= usize::MAX,
    ensures
        train_from(corpus, vocab, merges, target, min) matches Ok((v, m)) ==> merges_concatenate(v, m),
    decreases target - vocab.len(),
{
    if vocab.len() < target {
        match best_pair(corpus, min) {
            None => {},
            Some(p) => {
                let token = vocab[p.0 as int] + vocab[p.1 as int];
                if !vocab.contains(token) {
                    assert(is_best_pair(corpus, min, p));
                    lemma_count_occurrence(corpus, p);
                    let (a, b) = choose|a: int, b: int| #[trigger] pair_at(corpus, p, a, b);
                    assert(corpus[a][b - 1] < vocab.len() && corpus[a][b - 1] >= 4);
                    assert(corpus[a][b] < vocab.len() && corpus[a][b] >= 4);
                    let output = vocab.len() as TokenId;
                    let c2 = merge_corpus(corpus, p.0, p.1, output);
                    let v2 = vocab.push(token);
                    let m2 = merges.push((p.0, p.1, output));
                    assert(ids_below(corpus, v2.len() as int));
                    lemma_merge_corpus_shape(corpus, p.0, p.1, output, v2.len() as int);
                    assert forall|i: int, j: int| 0 <= i < c2.len() && 0 <= j < c2[i].len() implies #[trigger] c2[i][j]
                        >= SPECIAL_TOKEN_COUNT as int by {
                        lemma_merge_word_floor(corpus[i], p.0, p.1, output, SPECIAL_TOKEN_COUNT as int);
                    }
                    assert forall|j: int| 0 <= j < m2.len() implies {
                        let m = #[trigger] m2[j];
                        &&& 4 <= m.0 < v2.len()
                        &&& 4 <= m.1 < v2.len()
                        &&& 4 <= m.2 < v2.len()
                        &&& v2[m.2 as int] == v2[m.0 as int] + v2[m.1 as int]
                    } by {
                        if j < merges.len() {
                            let m = merges[j];
                            assert(m2[j] == m);
                            assert(v2[m.0 as int] == vocab[m.0 as int]);
                            assert(v2[m.1 as int] == vocab[m.1 as int]);
                            assert(v2[m.2 as int] == vocab[m.2 as int]);
                        } else {
                            assert(v2[p.0 as int] == vocab[p.0 as int]);
                            assert(v2[p.1 as int] == vocab[p.1 as int]);
                        }
                    }
                    lemma_training_concatenates(c2, v2, m2, target, min);
                }
            },
        }
    }
}

/// Training from a state only appends merges, one per new vocabulary entry,
/// and stops growing at the target size.
proof fn lemma_train_from_grows(
    corpus: Seq<Seq<TokenId>>,
    vocab: Seq<Seq<char>>,
    merges: Seq<MergeTriple>,
    target: nat,
    min: nat,
)
    ensures
        train_from(corpus, vocab, merges, target, min) matches Ok((v, m)) ==> {
            &&& m.len() >= merges.len()
            &&& v.len() - vocab.len() == m.len() - merges.len()
            &&& v.len() <= if vocab.len() >= target { vocab.len() as int } else { target as int }
            &&& forall|i: int| 0 <= i < merges.len() ==> #[trigger] m[i] == merges[i]
        },
    decreases target - vocab.len(),
{
    if vocab.len() < target {
        match best_pair(corpus, min) {
            None => {},
            Some(p) => {
                let token = vocab[p.0 as int] + vocab[p.1 as int];
                if !vocab.contains(token) {
                    let output = vocab.len() as TokenId;
                    let m2 = merges.push((p.0, p.1, output));
                    lemma_train_from_grows(merge_corpus(corpus, p.0, p.1, output), vocab.push(token), m2, target, min);
                    match train_from(corpus, vocab, merges, target, min) {
                        Ok((v, m)) => {
                            assert forall|i: int| 0 <= i < merges.len() implies #[trigger] m[i] == merges[i] by {
                                assert(m[i] == m2[i]);
                            }
                        },
                        Err(_) => {},
                    }
                }
            },
        }
    }
}

/// Trained merges join strings: each merge of a successful training is the
/// pair of two text tokens (ids `4` and above), and its output's string is
/// their two strings one after the other.
pub proof fn lemma_trained_merges_concatenate(
    texts: Seq<String>,
    target: nat,
    min: nat,
    vocab: Seq<Seq<char>>,
    merges: Seq<MergeTriple>,
)
    requires
        target <= usize::MAX,
        train_from(initial_corpus(texts), base_vocab_units(), Seq::empty(), target, min) == Ok::<
            (Seq<Seq<char>>, Seq<MergeTriple>),
            (TokenId, TokenId, Seq<char>),
        >((vocab, merges)),
    ensures
        merges_concatenate(vocab, merges),
{
    lemma_initial_state(texts);
    let c = initial_corpus(texts);
    assert forall|i: int, j: int| 0 <= i < c.len() && 0 <= j < c[i].len() implies #[trigger] c[i][j]
        >= SPECIAL_TOKEN_COUNT as int by {
        let bytes = encode_utf8(texts[i]@);
        assert(c[i] == bytes.map_values(|b: u8| (b + 4) as TokenId));
    }
    lemma_training_concatenates(c, base_vocab_units(), Seq::empty(), target, min);
}

/// Size and first step of a successful training: one vocabulary entry per
/// merge on top of the 260 base tokens, no more entries than the target
/// size, and, when the target leaves room, a first merge exactly when some
/// pair occurs at least the minimum number of times, namely the most
/// frequent such pair (ties to the smaller id pair) with output id 260.
pub proof fn lemma_trained_size_and_first_merge(
    texts: Seq<String>,
    target: nat,
    min: nat,
    vocab: Seq<Seq<char>>,
    merges: Seq<MergeTriple>,
)
    requires
        train_from(initial_corpus(texts), base_vocab_units(), Seq::empty(), target, min) == Ok::<
            (Seq<Seq<char>>, Seq<MergeTriple>),
            (TokenId, TokenId, Seq<char>),
        >((vocab, merges)),
    ensures
        vocab.len() == BASE_VOCAB_SIZE + merges.len(),
        target >= BASE_VOCAB_SIZE ==> merges.len() <= target - BASE_VOCAB_SIZE,
        target <= BASE_VOCAB_SIZE ==> merges.len() == 0,
        target > BASE_VOCAB_SIZE ==> (merges.len() > 0 <==> best_pair(initial_corpus(texts), min) is Some),
        merges.len() > 0 ==> best_pair(initial_corpus(texts), min) == Some(merge_pair(merges[0]))
            && merges[0].2 == BASE_VOCAB_SIZE,
{
    let c = initial_corpus(texts);
    let base = base_vocab_units();
    let empty = Seq::<MergeTriple>::empty();
    assert(base.len() == BASE_VOCAB_SIZE);
    lemma_train_from_grows(c, base, empty, target, min);
    if base.len() < target {
        match best_pair(c, min) {
            None => {},
            Some(p) => {
                let token = base[p.0 as int] + base[p.1 as int];
                if !base.contains(token) {
                    let output = base.len() as TokenId;
                    let m2 = empty.push((p.0, p.1, output));
                    lemma_train_from_grows(merge_corpus(c, p.0, p.1, output), base.push(token), m2, target, min);
                    assert(merges[0] == m2[0]);
                }
            },
        }
    }
}


/// A tokenizer loaded from a trained artifact decodes what it encodes: the
/// canonical encoding of any text's UTF-8 bytes decodes to those bytes, which
/// read as UTF-8 give the text back.
pub proof fn lemma_trained_tokenizer_round_trip(
    texts: Seq<String>,
    target: nat,
    min: nat,
    vocab: Seq<Seq<char>>,
    merges: Seq<MergeTriple>,
    a: TokenizerArtifact,
    t: ElasticTextTokenizer,
    text: Seq<char>,
)
    requires
        target <= usize::MAX,
        train_from(initial_corpus(texts), base_vocab_units(), Seq::empty(), target, min) == Ok::<
            (Seq<Seq<char>>, Seq<MergeTriple>),
            (TokenId, TokenId, Seq<char>),
        >((vocab, merges)),
        describes_training(a, vocab, merges),
        loads_as(a, t),
    ensures
        reversible_bytes(
            t.spec_rev(),
            canonical_encode(ordered_rule_map(t.spec_merges()), t.base_ids(encode_utf8(text))),
        ) == encode_utf8(text),
        vstd::utf8::decode_utf8(encode_utf8(text)) == text,
{
    lemma_trained_artifact_loads(texts, target, min, vocab, merges, a);
    lemma_trained_merges_concatenate(texts, target, min, vocab, merges);
    let entries = artifact_entries(a);
    let sv = strings_view(t.spec_rev());
    assert forall|i: int| 0 <= i < vocab.len() implies #[trigger] sv[i] == vocab[i] by {
        assert(entries[i].1 == i);
        assert(t.spec_rev()[entries[i].1 as int]@ == entries[i].0@);
    }
    assert(sv =~= vocab);
    lemma_decode_inverts_encode(t, text);
}


/// The corpus after applying `merges` in order, each to every word.
pub open spec fn replay(corpus: Seq<Seq<TokenId>>, merges: Seq<MergeTriple>) -> Seq<Seq<TokenId>>
    decreases merges.len(),
{
    if merges.len() == 0 {
        corpus
    } else {
        replay(merge_corpus(corpus, merges[0].0, merges[0].1, merges[0].2), merges.drop_first())
    }
}

/// Merge `j` is the most frequent adjacent pair of the corpus it is learned
/// from: it occurs at least `min` times (and at least once), at least as often
/// as every other pair that does, and the smaller `(left, right)` pair only
/// when counts tie.
pub open spec fn learned_most_frequent(corpus: Seq<Seq<TokenId>>, m: MergeTriple, min: nat) -> bool {
    &&& pair_count(corpus, merge_pair(m)) >= min
    &&& pair_count(corpus, merge_pair(m)) > 0
    &&& forall|q: (TokenId, TokenId)|
        pair_count(corpus, q) >= min && pair_count(corpus, q) > 0 ==> #[trigger] pair_count(corpus, q)
            <= pair_count(corpus, merge_pair(m))
    &&& forall|q: (TokenId, TokenId)|
        pair_count(corpus, q) >= min && #[trigger] pair_count(corpus, q) == pair_count(
            corpus,
            merge_pair(m),
        ) && pair_count(corpus, q) > 0 ==> pair_le(merge_pair(m), q)
}

proof fn lemma_train_from_most_frequent(
    corpus: Seq<Seq<TokenId>>,
    vocab: Seq<Seq<char>>,
    merges: Seq<MergeTriple>,
    target: nat,
    min: nat,
)
    ensures
        train_from(corpus, vocab, merges, target, min) matches Ok((v, m)) ==> forall|j: int|
            merges.len() <= j < m.len() ==> learned_most_frequent(
                replay(corpus, m.subrange(merges.len() as int, j)),
                #[trigger] m[j],
                min,
            ),
    decreases target - vocab.len(),
{
    if vocab.len() < target {
        match best_pair(corpus, min) {
            None => {},
            Some(p) => {
                let token = vocab[p.0 as int] + vocab[p.1 as int];
                if !vocab.contains(token) {
                    assert(is_best_pair(corpus, min, p));
                    let output = vocab.len() as TokenId;
                    let c2 = merge_corpus(corpus, p.0, p.1, output);
                    let m2 = merges.push((p.0, p.1, output));
                    lemma_train_from_most_frequent(c2, vocab.push(token), m2, target, min);
                    lemma_train_from_grows(c2, vocab.push(token), m2, target, min);
                    match train_from(corpus, vocab, merges, target, min) {
                        Ok((v, m)) => {
                            assert(m[merges.len() as int] == m2[merges.len() as int]);
                            assert forall|j: int| merges.len() <= j < m.len() implies learned_most_frequent(
                                replay(corpus, m.subrange(merges.len() as int, j)),
                                #[trigger] m[j],
                                min,
                            ) by {
                                let s = m.subrange(merges.len() as int, j);
                                if j == merges.len() {
                                    assert(s.len() == 0);
                                    assert(replay(corpus, s) == corpus);
                                    assert(merge_pair(m[j]) == p);
                                } else {
                                    assert(s[0] == (p.0, p.1, output));
                                    assert(s.drop_first() =~= m.subrange(m2.len() as int, j));
                                    assert(replay(corpus, s) == replay(c2, s.drop_first()));
                                }
                            }
                        },
                        Err(_) => {},
                    }
                }
            },
        }
    }
}

/// Training learns the most frequent pair at every step: each merge's pair
/// occurs in the corpus as merged so far at least the minimum number of
/// times and at least as often as every other pair that does; the pair order
/// only breaks ties.
pub proof fn lemma_trained_merges_most_frequent(
    texts: Seq<String>,
    target: nat,
    min: nat,
    vocab: Seq<Seq<char>>,
    merges: Seq<MergeTriple>,
)
    requires
        train_from(initial_corpus(texts), base_vocab_units(), Seq::empty(), target, min) == Ok::<
            (Seq<Seq<char>>, Seq<MergeTriple>),
            (TokenId, TokenId, Seq<char>),
        >((vocab, merges)),
    ensures
        forall|j: int|
            0 <= j < merges.len() ==> learned_most_frequent(
                replay(initial_corpus(texts), merges.take(j)),
                #[trigger] merges[j],
                min,
            ),
{
    let e = Seq::<MergeTriple>::empty();
    lemma_train_from_most_frequent(initial_corpus(texts), base_vocab_units(), e, target, min);
    match train_from(initial_corpus(texts), base_vocab_units(), e, target, min) {
        Ok((v, m)) => {
            assert(m == merges);
            assert(forall|j: int|
                e.len() <= j < m.len() ==> learned_most_frequent(
                    replay(initial_corpus(texts), m.subrange(e.len() as int, j)),
                    #[trigger] m[j],
                    min,
                ));
        },
        Err(_) => {},
    }
    assert forall|j: int| 0 <= j < merges.len() implies learned_most_frequent(
        replay(initial_corpus(texts), merges.take(j)),
        #[trigger] merges[j],
        min,
    ) by {
        assert(e.len() == 0);
        assert(merges.subrange(e.len() as int, j) =~= merges.take(j));
        assert(learned_most_frequent(
            replay(initial_corpus(texts), merges.subrange(e.len() as int, j)),
            merges[j],
            min,
        ));
    }
}

} // verus!
