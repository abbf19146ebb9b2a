//! Decimal text of unsigned integers, and the text form of merge rules:
//! three decimal ids separated by single spaces.

use vstd::prelude::*;

use crate::bpe_semantics::MergeTriple;
use crate::byte_units::push_char;
use crate::elastic_text_tokenizer::{
    decimal_value, is_digit, is_white_space, parse_rule, parse_usize, split_state, unsigned_digits,
    whitespace_words,
};

verus! {

/// Decimal digits of `n`.
pub open spec fn decimal_chars(n: nat) -> Seq<char>
    decreases n,
{
    if n < 10 {
        seq![(n + 48) as char]
    } else {
        decimal_chars(n / 10) + seq![((n % 10) + 48) as char]
    }
}

/// Appends the decimal digits of `n`.
pub fn push_decimal(s: &mut String, n: u64)
    ensures
        final(s)@ == old(s)@ + decimal_chars(n as nat),
    decreases n,
{
    if n >= 10 {
        push_decimal(s, n / 10);
    }
    let d = (n % 10) as u8;
    push_char(s, (d + 48) as char);
    assert(final(s)@ =~= old(s)@ + decimal_chars(n as nat)) by {
        if n >= 10 {
        }
    }
}

/// Decimal digits are digits, at least one, and read back as the number.
pub proof fn lemma_decimal_roundtrip(n: nat)
    ensures
        decimal_chars(n).len() > 0,
        forall|i: int| 0 <= i < decimal_chars(n).len() ==> is_digit(#[trigger] decimal_chars(n)[i]),
        decimal_value(decimal_chars(n)) == n,
    decreases n,
{
    if n >= 10 {
        lemma_decimal_roundtrip(n / 10);
        let d = decimal_chars(n);
        assert(d.drop_last() =~= decimal_chars(n / 10));
        let x: nat = n % 10;
        assert(((x + 48) as char) as nat == x + 48) by {
            assert(0 <= x + 48 < 0xD800);
        }
        assert(d.last() == ((x + 48) as char));
        assert('0' as nat == 48);
        assert(decimal_value(d) == decimal_value(d.drop_last()) * 10 + (d.last() as nat - '0' as nat) as nat);
        assert(decimal_value(d) == (n / 10) * 10 + x);
        assert(n == (n / 10) * 10 + n % 10);
        assert forall|i: int| 0 <= i < d.len() implies is_digit(#[trigger] d[i]) by {
            if i < d.len() - 1 {
                assert(d[i] == decimal_chars(n / 10)[i]);
            }
        }
    } else {
        let d = decimal_chars(n);
        assert(d.drop_last() =~= Seq::<char>::empty());
        assert(((n + 48) as char) as nat == n + 48) by {
            assert(0 <= n + 48 < 0xD800);
        }
        assert('0' as nat == 48);
        assert(decimal_value(d) == decimal_value(d.drop_last()) * 10 + (d.last() as nat - '0' as nat) as nat);
    }
}

/// A number's decimal digits parse back to it.
pub proof fn lemma_parse_decimal(n: usize)
    ensures
        parse_usize(decimal_chars(n as nat)) == Some(n),
{
    lemma_decimal_roundtrip(n as nat);
    let d = decimal_chars(n as nat);
    assert(d[0] != '+') by {
        assert(is_digit(d[0]));
    }
    assert(unsigned_digits(d) == d);
}

/// Text form of a merge rule.
pub open spec fn rule_text(m: MergeTriple) -> Seq<char> {
    decimal_chars(m.0 as nat) + seq![' '] + decimal_chars(m.1 as nat) + seq![' '] + decimal_chars(m.2 as nat)
}

/// Appending non-whitespace characters extends the word in progress.
proof fn lemma_split_word(s: Seq<char>, w: Seq<char>)
    requires
        forall|i: int| 0 <= i < w.len() ==> !is_white_space(#[trigger] w[i]),
    ensures
        split_state(s + w) == (split_state(s).0, split_state(s).1 + w),
    decreases w.len(),
{
    if w.len() == 0 {
        assert(s + w =~= s);
        assert(split_state(s).1 + w =~= split_state(s).1);
    } else {
        let u = w.drop_last();
        lemma_split_word(s, u);
        assert((s + w).drop_last() =~= s + u);
        assert((s + w).last() == w.last());
        assert(!is_white_space(w[w.len() - 1]));
        assert(split_state(s).1 + u + seq![w.last()] =~= split_state(s).1 + w);
        assert(split_state(s).1 + u.push(w.last()) =~= split_state(s).1 + w);
    }
}

/// Digits are not whitespace.
proof fn lemma_digits_not_white(d: Seq<char>)
    requires
        forall|i: int| 0 <= i < d.len() ==> is_digit(#[trigger] d[i]),
    ensures
        forall|i: int| 0 <= i < d.len() ==> !is_white_space(#[trigger] d[i]),
{
    assert forall|i: int| 0 <= i < d.len() implies !is_white_space(#[trigger] d[i]) by {
        assert(is_digit(d[i]));
    }
}

/// Three non-empty words without whitespace, separated by single spaces,
/// split back into the three words.
proof fn lemma_three_words(a: Seq<char>, b: Seq<char>, c: Seq<char>)
    requires
        a.len() > 0 && b.len() > 0 && c.len() > 0,
        forall|i: int| 0 <= i < a.len() ==> !is_white_space(#[trigger] a[i]),
        forall|i: int| 0 <= i < b.len() ==> !is_white_space(#[trigger] b[i]),
        forall|i: int| 0 <= i < c.len() ==> !is_white_space(#[trigger] c[i]),
    ensures
        whitespace_words(a + seq![' '] + b + seq![' '] + c) == seq![a, b, c],
{
    let empty = Seq::<char>::empty();
    lemma_split_word(empty, a);
    assert(empty + a =~= a);
    let sa = a + seq![' '];
    assert(sa.drop_last() =~= a);
    assert(split_state(sa) == (seq![a], empty)) by {
        assert(is_white_space(sa.last()));
        assert(Seq::<Seq<char>>::empty().push(a) =~= seq![a]);
    }
    lemma_split_word(sa, b);
    assert(empty + b =~= b);
    let sb = sa + b + seq![' '];
    assert(sb.drop_last() =~= sa + b);
    assert(split_state(sb) == (seq![a, b], empty)) by {
        assert(is_white_space(sb.last()));
        assert(seq![a].push(b) =~= seq![a, b]);
    }
    lemma_split_word(sb, c);
    assert(empty + c =~= c);
    assert(seq![a, b].push(c) =~= seq![a, b, c]);
}

/// The text form of a merge rule parses back to the rule.
pub proof fn lemma_rule_text_roundtrip(m: MergeTriple)
    ensures
        parse_rule(rule_text(m)) == Some(m),
{
    let a = decimal_chars(m.0 as nat);
    let b = decimal_chars(m.1 as nat);
    let c = decimal_chars(m.2 as nat);
    lemma_decimal_roundtrip(m.0 as nat);
    lemma_decimal_roundtrip(m.1 as nat);
    lemma_decimal_roundtrip(m.2 as nat);
    lemma_digits_not_white(a);
    lemma_digits_not_white(b);
    lemma_digits_not_white(c);
    lemma_three_words(a, b, c);
    lemma_parse_decimal(m.0);
    lemma_parse_decimal(m.1);
    lemma_parse_decimal(m.2);
}

/// The text form of a merge rule.
pub fn rule_string(m: MergeTriple) -> (text: String)
    ensures
        text@ == rule_text(m),
{
    let mut text = String::new();
    push_decimal(&mut text, m.0 as u64);
    push_char(&mut text, ' ');
    push_decimal(&mut text, m.1 as u64);
    push_char(&mut text, ' ');
    push_decimal(&mut text, m.2 as u64);
    text
}

} // verus!
