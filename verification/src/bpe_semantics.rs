//! Mathematical semantics of canonical rank-priority BPE.
//!
//! A merge table is an ordered sequence of `(left, right, output)` rules. The
//! position of a rule in that sequence is its rank. Canonical encoding repeats
//! one step until no adjacent pair has a rule: among all adjacent pairs that
//! have a rule, the one with the lowest rank wins, and equal ranks are resolved
//! by the left-most position. Every optimized kernel of the library is stated
//! against [`canonical_encode`].

use vstd::prelude::*;

verus! {

/// Token identifier used by the SciAgent BPE implementation.
pub type TokenId = usize;

/// An ordered merge rule `(left, right, output)`.
pub type MergeTriple = (TokenId, TokenId, TokenId);

/// Abstract rule table: `(left, right)` maps to `(rank, output)`.
pub type RuleMap = Map<(TokenId, TokenId), (nat, TokenId)>;

/// The input pair of a merge rule.
pub open spec fn merge_pair(m: MergeTriple) -> (TokenId, TokenId) {
    (m.0, m.1)
}

/// Rule table of an ordered merge sequence, built by inserting the rules in
/// order (a later rule for the same pair replaces an earlier one).
pub open spec fn ordered_rule_map(merges: Seq<MergeTriple>) -> RuleMap
    decreases merges.len(),
{
    if merges.len() == 0 {
        Map::empty()
    } else {
        ordered_rule_map(merges.drop_last()).insert(
            merge_pair(merges.last()),
            ((merges.len() - 1) as nat, merges.last().2),
        )
    }
}

/// Two distinct rules of the sequence share the same input pair.
pub open spec fn has_duplicate_pair(merges: Seq<MergeTriple>) -> bool {
    exists|i: int, j: int|
        0 <= i < j < merges.len() && #[trigger] merge_pair(merges[i]) == #[trigger] merge_pair(
            merges[j],
        )
}

/// The pair of the first rule (in table order) whose pair already occurred
/// earlier in the table, if any.
pub open spec fn first_repeated_pair(merges: Seq<MergeTriple>) -> Option<(TokenId, TokenId)>
    decreases merges.len(),
{
    if merges.len() == 0 {
        None
    } else {
        match first_repeated_pair(merges.drop_last()) {
            Some(p) => Some(p),
            None => if merges.drop_last().map_values(|m: MergeTriple| merge_pair(m)).contains(
                merge_pair(merges.last()),
            ) {
                Some(merge_pair(merges.last()))
            } else {
                None
            },
        }
    }
}

/// Lexicographic order on token pairs.
pub open spec fn pair_le(a: (TokenId, TokenId), b: (TokenId, TokenId)) -> bool {
    a.0 < b.0 || (a.0 == b.0 && a.1 <= b.1)
}

/// `p` is the pair of two distinct rules of the table.
pub open spec fn is_duplicated_pair(merges: Seq<MergeTriple>, p: (TokenId, TokenId)) -> bool {
    exists|i: int, j: int|
        0 <= i < j < merges.len() && merge_pair(merges[i]) == p && merge_pair(merges[j]) == p
}

/// `p` is the lexicographically smallest duplicated pair of the table.
pub open spec fn is_least_duplicated_pair(merges: Seq<MergeTriple>, p: (TokenId, TokenId)) -> bool {
    &&& is_duplicated_pair(merges, p)
    &&& forall|q: (TokenId, TokenId)| is_duplicated_pair(merges, q) ==> pair_le(p, q)
}

/// Position `p` holds an adjacent pair that has a rule.
pub open spec fn has_merge_at(rules: RuleMap, ids: Seq<TokenId>, p: int) -> bool {
    0 <= p && p + 1 < ids.len() && rules.contains_key((ids[p], ids[p + 1]))
}

/// Rank of the rule applicable at position `p`.
pub open spec fn rank_at(rules: RuleMap, ids: Seq<TokenId>, p: int) -> nat {
    rules[(ids[p], ids[p + 1])].0
}

/// Output token of the rule applicable at position `p`.
pub open spec fn output_at(rules: RuleMap, ids: Seq<TokenId>, p: int) -> TokenId {
    rules[(ids[p], ids[p + 1])].1
}

/// Canonical priority order: lower rank first, then the left-most position.
pub open spec fn precedes(rank_a: int, pos_a: int, rank_b: int, pos_b: int) -> bool {
    rank_a < rank_b || (rank_a == rank_b && pos_a <= pos_b)
}

/// Position `p` holds the merge that canonical BPE applies next.
pub open spec fn is_best_merge(rules: RuleMap, ids: Seq<TokenId>, p: int) -> bool {
    &&& has_merge_at(rules, ids, p)
    &&& forall|q: int|
        #[trigger] has_merge_at(rules, ids, q) ==> precedes(
            rank_at(rules, ids, p) as int,
            p,
            rank_at(rules, ids, q) as int,
            q,
        )
}

/// The sequence after replacing the pair at `p` by `output`.
pub open spec fn apply_merge_at(ids: Seq<TokenId>, p: int, output: TokenId) -> Seq<TokenId> {
    ids.update(p, output).remove(p + 1)
}

/// Canonical rank-priority BPE encoding of one complete piece.
pub open spec fn canonical_encode(rules: RuleMap, ids: Seq<TokenId>) -> Seq<TokenId>
    decreases ids.len(),
{
    if exists|p: int| is_best_merge(rules, ids, p) {
        let p = choose|p: int| is_best_merge(rules, ids, p);
        canonical_encode(rules, apply_merge_at(ids, p, output_at(rules, ids, p)))
    } else {
        ids
    }
}

/// No adjacent pair of `ids` has a rule.
pub open spec fn is_fully_merged(rules: RuleMap, ids: Seq<TokenId>) -> bool {
    forall|p: int| !#[trigger] has_merge_at(rules, ids, p)
}

/// The best merge is unique.
pub proof fn lemma_best_merge_unique(rules: RuleMap, ids: Seq<TokenId>, p: int, q: int)
    requires
        is_best_merge(rules, ids, p),
        is_best_merge(rules, ids, q),
    ensures
        p == q,
{
    assert(has_merge_at(rules, ids, q));
    assert(has_merge_at(rules, ids, p));
}

/// The best candidate among the positions below `k`.
proof fn lemma_best_below(rules: RuleMap, ids: Seq<TokenId>, k: int) -> (b: int)
    requires
        0 <= k <= ids.len(),
        exists|r: int| 0 <= r < k && #[trigger] has_merge_at(rules, ids, r),
    ensures
        0 <= b < k,
        has_merge_at(rules, ids, b),
        forall|r: int|
            0 <= r < k && #[trigger] has_merge_at(rules, ids, r) ==> precedes(
                rank_at(rules, ids, b) as int,
                b,
                rank_at(rules, ids, r) as int,
                r,
            ),
    decreases k,
{
    if exists|r: int| 0 <= r < k - 1 && #[trigger] has_merge_at(rules, ids, r) {
        let b0 = lemma_best_below(rules, ids, k - 1);
        if has_merge_at(rules, ids, k - 1) && !precedes(
            rank_at(rules, ids, b0) as int,
            b0,
            rank_at(rules, ids, k - 1) as int,
            k - 1,
        ) {
            k - 1
        } else {
            b0
        }
    } else {
        let r = choose|r: int| 0 <= r < k && #[trigger] has_merge_at(rules, ids, r);
        assert(r == k - 1);
        k - 1
    }
}

/// Whenever some adjacent pair has a rule, a best merge exists.
pub proof fn lemma_best_merge_exists(rules: RuleMap, ids: Seq<TokenId>, q: int)
    requires
        has_merge_at(rules, ids, q),
    ensures
        exists|p: int| is_best_merge(rules, ids, p),
{
    let b = lemma_best_below(rules, ids, ids.len() as int);
    assert(is_best_merge(rules, ids, b));
}

/// One canonical step: when `p` is the best merge, encoding the merged sequence
/// gives the same result as encoding the original one.
pub proof fn lemma_canonical_step(rules: RuleMap, ids: Seq<TokenId>, p: int)
    requires
        is_best_merge(rules, ids, p),
    ensures
        canonical_encode(rules, ids) == canonical_encode(
            rules,
            apply_merge_at(ids, p, output_at(rules, ids, p)),
        ),
{
    let c = choose|c: int| is_best_merge(rules, ids, c);
    lemma_best_merge_unique(rules, ids, p, c);
}

/// When no adjacent pair has a rule, the sequence is its own encoding.
pub proof fn lemma_canonical_done(rules: RuleMap, ids: Seq<TokenId>)
    requires
        is_fully_merged(rules, ids),
    ensures
        canonical_encode(rules, ids) == ids,
{
    if exists|p: int| is_best_merge(rules, ids, p) {
        let p = choose|p: int| is_best_merge(rules, ids, p);
        assert(has_merge_at(rules, ids, p));
    }
}

/// Canonical encoding never lengthens a piece and its result is fully merged.
pub proof fn lemma_canonical_result_fully_merged(rules: RuleMap, ids: Seq<TokenId>)
    ensures
        is_fully_merged(rules, canonical_encode(rules, ids)),
        canonical_encode(rules, ids).len() <= ids.len(),
    decreases ids.len(),
{
    if exists|p: int| is_best_merge(rules, ids, p) {
        let p = choose|p: int| is_best_merge(rules, ids, p);
        lemma_canonical_result_fully_merged(
            rules,
            apply_merge_at(ids, p, output_at(rules, ids, p)),
        );
    } else {
        assert forall|q: int| !#[trigger] has_merge_at(rules, ids, q) by {
            if has_merge_at(rules, ids, q) {
                lemma_best_merge_exists(rules, ids, q);
            }
        }
    }
}

/// Canonical encoding is idempotent.
pub proof fn lemma_canonical_idempotent(rules: RuleMap, ids: Seq<TokenId>)
    ensures
        canonical_encode(rules, canonical_encode(rules, ids)) == canonical_encode(rules, ids),
{
    lemma_canonical_result_fully_merged(rules, ids);
    lemma_canonical_done(rules, canonical_encode(rules, ids));
}

/// Without duplicated pairs, every rule of the table is present in its rule
/// map with its own rank and output, and every key of the map comes from a rule.
pub proof fn lemma_ordered_rule_map(merges: Seq<MergeTriple>)
    requires
        !has_duplicate_pair(merges),
    ensures
        forall|i: int|
            0 <= i < merges.len() ==> #[trigger] ordered_rule_map(merges).contains_key(
                merge_pair(merges[i]),
            ) && ordered_rule_map(merges)[merge_pair(merges[i])] == (i as nat, merges[i].2),
        forall|k: (TokenId, TokenId)|
            #[trigger] ordered_rule_map(merges).contains_key(k) ==> exists|i: int|
                0 <= i < merges.len() && merge_pair(merges[i]) == k,
    decreases merges.len(),
{
    if merges.len() > 0 {
        let prefix = merges.drop_last();
        assert(!has_duplicate_pair(prefix)) by {
            if has_duplicate_pair(prefix) {
                let (i, j) = choose|i: int, j: int|
                    0 <= i < j < prefix.len() && #[trigger] merge_pair(prefix[i])
                        == #[trigger] merge_pair(prefix[j]);
                assert(merge_pair(merges[i]) == merge_pair(merges[j]));
            }
        }
        lemma_ordered_rule_map(prefix);
        let n = merges.len() - 1;
        assert forall|i: int|
            0 <= i < merges.len() implies #[trigger] ordered_rule_map(merges).contains_key(
            merge_pair(merges[i]),
        ) && ordered_rule_map(merges)[merge_pair(merges[i])] == (i as nat, merges[i].2) by {
            if i < n {
                assert(prefix[i] == merges[i]);
                assert(ordered_rule_map(prefix).contains_key(merge_pair(prefix[i])));
                assert(merge_pair(merges[i]) != merge_pair(merges[n]));
            }
        }
        assert forall|k: (TokenId, TokenId)| #[trigger]
            ordered_rule_map(merges).contains_key(k) implies exists|i: int|
            0 <= i < merges.len() && merge_pair(merges[i]) == k by {
            if k != merge_pair(merges[n]) {
                assert(ordered_rule_map(prefix).contains_key(k));
                let i = choose|i: int| 0 <= i < prefix.len() && merge_pair(prefix[i]) == k;
                assert(merges[i] == prefix[i]);
            }
        }
    }
}

/// The first repeated pair exists exactly when the table has a duplicated pair.
pub proof fn lemma_first_repeated_pair(merges: Seq<MergeTriple>)
    ensures
        first_repeated_pair(merges) is None <==> !has_duplicate_pair(merges),
        first_repeated_pair(merges) matches Some(p) ==> is_duplicated_pair(merges, p),
    decreases merges.len(),
{
    if merges.len() > 0 {
        let prefix = merges.drop_last();
        let n = merges.len() - 1;
        lemma_first_repeated_pair(prefix);
        let pairs = prefix.map_values(|m: MergeTriple| merge_pair(m));
        if first_repeated_pair(prefix) is Some {
            let p = first_repeated_pair(prefix).unwrap();
            let (i, j) = choose|i: int, j: int|
                0 <= i < j < prefix.len() && merge_pair(prefix[i]) == p && merge_pair(prefix[j])
                    == p;
            assert(merges[i] == prefix[i] && merges[j] == prefix[j]);
            assert(merge_pair(merges[i]) == merge_pair(merges[j]));
        } else if pairs.contains(merge_pair(merges.last())) {
            let i = choose|i: int| 0 <= i < pairs.len() && pairs[i] == merge_pair(merges.last());
            assert(merges[i] == prefix[i]);
            assert(merge_pair(merges[i]) == merge_pair(merges[n]));
        } else {
            assert forall|i: int, j: int|
                0 <= i < j < merges.len() implies #[trigger] merge_pair(merges[i])
                != #[trigger] merge_pair(merges[j]) by {
                if j < n {
                    assert(merges[i] == prefix[i] && merges[j] == prefix[j]);
                } else {
                    assert(pairs[i] == merge_pair(merges[i]));
                }
            }
        }
    }
}


/// A pair is a key of the rule map exactly when some rule of the table has it.
pub proof fn lemma_rule_map_keys(merges: Seq<MergeTriple>, k: (TokenId, TokenId))
    ensures
        ordered_rule_map(merges).contains_key(k) <==> merges.map_values(
            |m: MergeTriple| merge_pair(m),
        ).contains(k),
    decreases merges.len(),
{
    let pairs = merges.map_values(|m: MergeTriple| merge_pair(m));
    if merges.len() > 0 {
        let prefix = merges.drop_last();
        let prefix_pairs = prefix.map_values(|m: MergeTriple| merge_pair(m));
        lemma_rule_map_keys(prefix, k);
        if prefix_pairs.contains(k) {
            let i = choose|i: int| 0 <= i < prefix_pairs.len() && prefix_pairs[i] == k;
            assert(pairs[i] == k);
        }
        if pairs.contains(k) {
            let i = choose|i: int| 0 <= i < pairs.len() && pairs[i] == k;
            if i < prefix.len() {
                assert(prefix_pairs[i] == k);
            }
        }
        assert(pairs[merges.len() - 1] == merge_pair(merges.last()));
    }
}

/// Once a prefix of the table has a repeated pair, the whole table reports
/// that same pair first.
pub proof fn lemma_first_repeated_prefix(merges: Seq<MergeTriple>, j: int)
    requires
        0 <= j <= merges.len(),
        first_repeated_pair(merges.take(j)) is Some,
    ensures
        first_repeated_pair(merges) == first_repeated_pair(merges.take(j)),
    decreases merges.len(),
{
    if j < merges.len() {
        let prefix = merges.drop_last();
        assert(prefix.take(j) =~= merges.take(j));
        lemma_first_repeated_prefix(prefix, j);
    } else {
        assert(merges.take(j) =~= merges);
    }
}

} // verus!
