//! Parsing of the small textual inputs of the tokenizer tools: comma
//! separated probe lengths and one-based source line ranges.

use vstd::prelude::*;

use crate::byte_units::push_char;
use crate::elastic_text_tokenizer::{
    chars_of, is_white_space, parse_usize, parse_usize_word, white_space,
};

verus! {

/// Appends the characters of `text` to `s`.
pub(crate) fn push_str(s: &mut String, text: &str)
    ensures
        final(s)@ == old(s)@ + text@,
{
    let chars = chars_of(text);
    let ghost start = s@;
    let mut i: usize = 0;
    while i < chars.len()
        invariant
            i <= chars.len(),
            chars@ == text@,
            s@ == start + chars@.take(i as int),
        decreases chars.len() - i,
    {
        push_char(s, chars[i]);
        assert(s@ =~= start + chars@.take(i + 1));
        i = i + 1;
    }
    assert(chars@.take(chars.len() as int) =~= chars@);
}

/// Fields completed so far and the field in progress, splitting at `,`.
pub open spec fn comma_state(s: Seq<char>) -> (Seq<Seq<char>>, Seq<char>)
    decreases s.len(),
{
    if s.len() == 0 {
        (Seq::empty(), Seq::empty())
    } else {
        let (fields, current) = comma_state(s.drop_last());
        if s.last() == ',' {
            (fields.push(current), Seq::empty())
        } else {
            (fields, current.push(s.last()))
        }
    }
}

/// The fields of `s` between commas, empty ones included (`str::split(',')`).
pub open spec fn comma_fields(s: Seq<char>) -> Seq<Seq<char>> {
    comma_state(s).0.push(comma_state(s).1)
}

/// `t` without leading whitespace.
pub open spec fn trim_start(t: Seq<char>) -> Seq<char>
    decreases t.len(),
{
    if t.len() > 0 && is_white_space(t[0]) {
        trim_start(t.skip(1))
    } else {
        t
    }
}

/// `t` without trailing whitespace.
pub open spec fn trim_end(t: Seq<char>) -> Seq<char>
    decreases t.len(),
{
    if t.len() > 0 && is_white_space(t.last()) {
        trim_end(t.drop_last())
    } else {
        t
    }
}

/// `str::trim`: `t` without leading and trailing whitespace.
pub open spec fn trim(t: Seq<char>) -> Seq<char> {
    trim_end(trim_start(t))
}

/// The trimmed fields that are not empty.
pub open spec fn nonempty_trimmed(fields: Seq<Seq<char>>) -> Seq<Seq<char>>
    decreases fields.len(),
{
    if fields.len() == 0 {
        Seq::empty()
    } else {
        nonempty_trimmed(fields.drop_last()) + if trim(fields.last()).len() > 0 {
            seq![trim(fields.last())]
        } else {
            Seq::empty()
        }
    }
}

/// The words of a comma-separated list: trimmed, empty ones dropped.
pub open spec fn list_words(s: Seq<char>) -> Seq<Seq<char>> {
    nonempty_trimmed(comma_fields(s))
}

/// `w` is the first word that is not an unsigned integer.
pub open spec fn is_first_bad_word(words: Seq<Seq<char>>, w: Seq<char>) -> bool {
    exists|i: int|
        0 <= i < words.len() && words[i] == w && parse_usize(w) is None && forall|j: int|
            0 <= j < i ==> parse_usize(#[trigger] words[j]) is Some
}

/// Every word is an unsigned integer.
pub open spec fn all_words_parse(words: Seq<Seq<char>>) -> bool {
    forall|i: int| 0 <= i < words.len() ==> parse_usize(#[trigger] words[i]) is Some
}

/// `x` is the value of some word.
pub open spec fn word_value(words: Seq<Seq<char>>, x: usize) -> bool {
    exists|i: int| 0 <= i < words.len() && parse_usize(#[trigger] words[i]) == Some(x)
}

/// Strictly increasing.
pub open spec fn strictly_increasing(v: Seq<usize>) -> bool {
    forall|i: int, j: int| 0 <= i < j < v.len() ==> v[i] < v[j]
}

/// Splits `chars` at commas.
fn split_commas(chars: &Vec<char>) -> (fields: Vec<Vec<char>>)
    ensures
        fields@.map_values(|f: Vec<char>| f@) == comma_fields(chars@),
{
    let mut fields: Vec<Vec<char>> = Vec::new();
    let mut current: Vec<char> = Vec::new();
    let mut i: usize = 0;
    while i < chars.len()
        invariant
            i <= chars.len(),
            (fields@.map_values(|f: Vec<char>| f@), current@) == comma_state(chars@.take(i as int)),
        decreases chars.len() - i,
    {
        let c = chars[i];
        assert(chars@.take(i + 1).drop_last() =~= chars@.take(i as int));
        assert(chars@.take(i + 1).last() == c);
        if c == ',' {
            let done = current;
            current = Vec::new();
            fields.push(done);
            assert(fields@.map_values(|f: Vec<char>| f@) =~= comma_state(chars@.take(i + 1)).0);
        } else {
            current.push(c);
        }
        assert(current@ =~= comma_state(chars@.take(i + 1)).1);
        i = i + 1;
    }
    assert(chars@.take(chars.len() as int) =~= chars@);
    fields.push(current);
    assert(fields@.map_values(|f: Vec<char>| f@) =~= comma_fields(chars@));
    fields
}

/// `field` trimmed of surrounding whitespace.
fn trimmed(field: &Vec<char>) -> (t: Vec<char>)
    ensures
        t@ == trim(field@),
{
    let mut start: usize = 0;
    assert(field@.skip(0) =~= field@);
    while start < field.len() && white_space(field[start])
        invariant
            start <= field.len(),
            trim_start(field@) == trim_start(field@.skip(start as int)),
        decreases field.len() - start,
    {
        assert(field@.skip(start as int).skip(1) =~= field@.skip(start + 1));
        start = start + 1;
    }
    assert(field@.skip(start as int) =~= field@.subrange(start as int, field.len() as int));
    assert(start < field.len() ==> field@.skip(start as int)[0] == field@[start as int]);
    let mut end: usize = field.len();
    while end > start && white_space(field[end - 1])
        invariant
            start <= end <= field.len(),
            trim_start(field@) == field@.subrange(start as int, field.len() as int),
            trim_end(field@.subrange(start as int, field.len() as int)) == trim_end(field@.subrange(start as int, end as int)),
        decreases end,
    {
        assert(field@.subrange(start as int, end as int).drop_last() =~= field@.subrange(start as int, end - 1));
        end = end - 1;
    }
    let mut t: Vec<char> = Vec::new();
    let mut k: usize = start;
    while k < end
        invariant
            start <= k <= end <= field.len(),
            t@ == field@.subrange(start as int, k as int),
        decreases end - k,
    {
        t.push(field[k]);
        assert(t@ =~= field@.subrange(start as int, k + 1));
        k = k + 1;
    }
    proof {
        let sub = field@.subrange(start as int, end as int);
        assert(end > start ==> sub.last() == field@[end - 1]);
    }
    t
}

/// The words of a comma-separated list.
fn words_of(input: &str) -> (words: Vec<Vec<char>>)
    ensures
        words@.map_values(|w: Vec<char>| w@) == list_words(input@),
{
    let chars = chars_of(input);
    let fields = split_commas(&chars);
    let ghost fs = comma_fields(input@);
    let mut words: Vec<Vec<char>> = Vec::new();
    let mut i: usize = 0;
    while i < fields.len()
        invariant
            i <= fields.len(),
            fs == comma_fields(input@),
            fields@.map_values(|f: Vec<char>| f@) == fs,
            words@.map_values(|w: Vec<char>| w@) == nonempty_trimmed(fs.take(i as int)),
        decreases fields.len() - i,
    {
        assert(fs.take(i + 1).drop_last() =~= fs.take(i as int));
        assert(fs.take(i + 1).last() == fields@[i as int]@);
        let t = trimmed(&fields[i]);
        if t.len() > 0 {
            words.push(t);
        }
        assert(words@.map_values(|w: Vec<char>| w@) =~= nonempty_trimmed(fs.take(i + 1)));
        i = i + 1;
    }
    assert(fs.take(fields.len() as int) =~= fs);
    words
}

/// The values of the words in order, or the first word that is not an
/// unsigned integer.
fn word_values(input: &str) -> (result: Result<Vec<usize>, Vec<char>>)
    ensures
        match result {
            Ok(values) => all_words_parse(list_words(input@)) && values.len() == list_words(input@).len()
                && forall|i: int| 0 <= i < values.len() ==> parse_usize(list_words(input@)[i]) == Some(#[trigger] values@[i]),
            Err(w) => is_first_bad_word(list_words(input@), w@),
        },
{
    let words = words_of(input);
    let ghost ws = list_words(input@);
    let mut values: Vec<usize> = Vec::new();
    let mut i: usize = 0;
    while i < words.len()
        invariant
            i <= words.len(),
            ws == list_words(input@),
            words@.map_values(|w: Vec<char>| w@) == ws,
            values.len() == i,
            forall|j: int| 0 <= j < i ==> parse_usize(ws[j]) == Some(#[trigger] values@[j]),
        decreases words.len() - i,
    {
        assert(ws[i as int] == words@[i as int]@);
        match parse_usize_word(&words[i]) {
            Some(v) => values.push(v),
            None => {
                let bad = words[i].clone();
                proof {
                    assert(bad@ == ws[i as int]);
                    assert forall|j: int| 0 <= j < i implies parse_usize(#[trigger] ws[j]) is Some by {
                        assert(parse_usize(ws[j]) == Some(values@[j]));
                    }
                }
                return Err(bad);
            },
        }
        i = i + 1;
    }
    proof {
        assert forall|j: int| 0 <= j < ws.len() implies parse_usize(#[trigger] ws[j]) is Some by {
            assert(parse_usize(ws[j]) == Some(values@[j]));
        }
    }
    Ok(values)
}

/// The distinct values, ascending.
fn sorted_distinct(values: &Vec<usize>) -> (out: Vec<usize>)
    ensures
        strictly_increasing(out@),
        forall|x: usize| out@.contains(x) <==> values@.contains(x),
{
    let mut out: Vec<usize> = Vec::new();
    let mut i: usize = 0;
    while i < values.len()
        invariant
            i <= values.len(),
            strictly_increasing(out@),
            forall|x: usize| out@.contains(x) <==> values@.take(i as int).contains(x),
        decreases values.len() - i,
    {
        let x = values[i];
        let mut pos: usize = 0;
        while pos < out.len() && out[pos] < x
            invariant
                pos <= out.len(),
                forall|j: int| 0 <= j < pos ==> out@[j] < x,
            decreases out.len() - pos,
        {
            pos = pos + 1;
        }
        let ghost before = out@;
        let ghost vi = values@.take(i + 1);
        let ghost vo = values@.take(i as int);
        assert(vi =~= vo.push(x));
        if pos < out.len() && out[pos] == x {
            proof {
                assert forall|y: usize| out@.contains(y) <==> vi.contains(y) by {
                    if vi.contains(y) {
                        let k = choose|k: int| 0 <= k < vi.len() && vi[k] == y;
                        if k < i {
                            assert(vo[k] == y);
                        } else {
                            assert(out@[pos as int] == y);
                        }
                    }
                    if out@.contains(y) {
                        assert(vo.contains(y));
                        let m = choose|m: int| 0 <= m < vo.len() && vo[m] == y;
                        assert(vi[m] == y);
                    }
                }
            }
        } else {
            out.insert(pos, x);
            proof {
                assert(out@ == before.insert(pos as int, x));
                assert forall|a: int, b: int| 0 <= a < b < out.len() implies out@[a] < out@[b] by {
                    if pos < before.len() {
                        assert(x < before[pos as int]);
                    }
                }
                assert forall|y: usize| out@.contains(y) <==> vi.contains(y) by {
                    if vi.contains(y) {
                        let k = choose|k: int| 0 <= k < vi.len() && vi[k] == y;
                        if k < i {
                            assert(vo[k] == y);
                            assert(before.contains(y));
                            let m = choose|m: int| 0 <= m < before.len() && before[m] == y;
                            if m < pos {
                                assert(out@[m] == y);
                            } else {
                                assert(out@[m + 1] == y);
                            }
                        } else {
                            assert(out@[pos as int] == y);
                        }
                    }
                    if out@.contains(y) {
                        let k = choose|k: int| 0 <= k < out.len() && out@[k] == y;
                        if k == pos {
                            assert(vi[i as int] == y);
                        } else {
                            let m = if k < pos { k } else { k - 1 };
                            assert(before[m] == y);
                            assert(before.contains(y));
                            assert(vo.contains(y));
                            let q = choose|q: int| 0 <= q < vo.len() && vo[q] == y;
                            assert(vi[q] == y);
                        }
                    }
                }
            }
        }
        i = i + 1;
    }
    assert(values@.take(values.len() as int) =~= values@);
    out
}

/// There is at most one first word that is not an unsigned integer.
proof fn lemma_first_bad_word_unique(words: Seq<Seq<char>>, a: Seq<char>, b: Seq<char>)
    requires
        is_first_bad_word(words, a),
        is_first_bad_word(words, b),
    ensures
        a == b,
{
    let i = choose|i: int| 0 <= i < words.len() && words[i] == a && parse_usize(a) is None && forall|j: int|
        0 <= j < i ==> parse_usize(#[trigger] words[j]) is Some;
    let k = choose|k: int| 0 <= k < words.len() && words[k] == b && parse_usize(b) is None && forall|j: int|
        0 <= j < k ==> parse_usize(#[trigger] words[j]) is Some;
    if i < k {
        assert(parse_usize(words[i]) is Some);
    } else if k < i {
        assert(parse_usize(words[k]) is Some);
    }
}

/// `prefix`, then `word`, then a closing backtick.
fn quoted_message(prefix: &str, word: &Vec<char>) -> (m: String)
    ensures
        m@ == prefix@ + word@ + seq!['`'],
{
    let mut m = String::new();
    push_str(&mut m, prefix);
    let ghost start = m@;
    let mut i: usize = 0;
    while i < word.len()
        invariant
            i <= word.len(),
            m@ == start + word@.take(i as int),
        decreases word.len() - i,
    {
        push_char(&mut m, word[i]);
        assert(m@ =~= start + word@.take(i + 1));
        i = i + 1;
    }
    assert(word@.take(word.len() as int) =~= word@);
    push_char(&mut m, '`');
    assert(m@ =~= prefix@ + word@ + seq!['`']);
    m
}

/// Parses a comma-separated length list: the distinct lengths ascending, or
/// the first word that is not an unsigned integer, or the first value
/// outside `1..=max`.
fn parse_length_list(input: &str, max: usize) -> (result: Result<Vec<usize>, Result<Vec<char>, ()>>)
    ensures
        match result {
            Ok(v) => all_words_parse(list_words(input@)) && (forall|x: usize| word_value(list_words(input@), x) ==> 1 <= x <= max)
                && strictly_increasing(v@) && forall|x: usize| v@.contains(x) <==> word_value(list_words(input@), x),
            Err(Ok(w)) => is_first_bad_word(list_words(input@), w@),
            Err(Err(())) => all_words_parse(list_words(input@)) && exists|x: usize| word_value(list_words(input@), x) && !(1 <= x <= max),
        },
{
    let values = match word_values(input) {
        Ok(values) => values,
        Err(w) => return Err(Ok(w)),
    };
    let ghost ws = list_words(input@);
    let mut i: usize = 0;
    while i < values.len()
        invariant
            i <= values.len(),
            ws == list_words(input@),
            all_words_parse(ws),
            values.len() == ws.len(),
            forall|j: int| 0 <= j < values.len() ==> parse_usize(ws[j]) == Some(#[trigger] values@[j]),
            forall|j: int| 0 <= j < i ==> 1 <= #[trigger] values@[j] <= max,
        decreases values.len() - i,
    {
        if values[i] == 0 || values[i] > max {
            proof {
                assert(word_value(ws, values@[i as int]));
            }
            return Err(Err(()));
        }
        i = i + 1;
    }
    let out = sorted_distinct(&values);
    proof {
        assert forall|x: usize| word_value(ws, x) implies 1 <= x <= max && values@.contains(x) by {
            let k = choose|k: int| 0 <= k < ws.len() && parse_usize(#[trigger] ws[k]) == Some(x);
            assert(values@[k] == x);
        }
        assert forall|x: usize| values@.contains(x) implies word_value(ws, x) by {
            let k = choose|k: int| 0 <= k < values.len() && values@[k] == x;
            assert(parse_usize(ws[k]) == Some(x));
        }
    }
    Ok(out)
}

/// Comma-separated probe lengths of the autotuner, ascending and distinct.
pub fn parse_probe_lengths(input: &str) -> (result: Result<Vec<usize>, String>)
    ensures
        forall|w: Seq<char>| is_first_bad_word(list_words(input@), w) ==> (result matches Err(m) && m@
            == "invalid probe length `"@ + w + seq!['`']),
        all_words_parse(list_words(input@)) && word_value(list_words(input@), 0) ==> (result matches Err(m)
            && m@ == "probe lengths must be greater than zero"@),
        all_words_parse(list_words(input@)) && !word_value(list_words(input@), 0) ==> (result matches Ok(v)
            && strictly_increasing(v@) && forall|x: usize| v@.contains(x) <==> word_value(list_words(input@), x)),
{
    match parse_length_list(input, usize::MAX) {
        Ok(v) => Ok(v),
        Err(Ok(w)) => {
            proof {
                assert forall|w2: Seq<char>| is_first_bad_word(list_words(input@), w2) implies w2 == w@ by {
                    lemma_first_bad_word_unique(list_words(input@), w2, w@);
                }
                let i = choose|i: int| 0 <= i < list_words(input@).len() && list_words(input@)[i] == w@ && parse_usize(w@) is None
                    && forall|j: int| 0 <= j < i ==> parse_usize(#[trigger] list_words(input@)[j]) is Some;
            }
            Err(quoted_message("invalid probe length `", &w))
        },
        Err(Err(())) => {
            proof {
                reveal_strlit("probe lengths must be greater than zero");
            }
            Err("probe lengths must be greater than zero".to_owned())
        },
    }
}

/// Comma-separated piece lengths of the text-encoding probe, ascending and
/// distinct.
pub fn parse_lengths(input: &str) -> (result: Result<Vec<usize>, String>)
    ensures
        forall|w: Seq<char>| is_first_bad_word(list_words(input@), w) ==> (result matches Err(m) && m@
            == "invalid length `"@ + w + seq!['`']),
        all_words_parse(list_words(input@)) && word_value(list_words(input@), 0) ==> (result matches Err(m)
            && m@ == "lengths must be greater than zero"@),
        all_words_parse(list_words(input@)) && !word_value(list_words(input@), 0) ==> (result matches Ok(v)
            && strictly_increasing(v@) && forall|x: usize| v@.contains(x) <==> word_value(list_words(input@), x)),
{
    match parse_length_list(input, usize::MAX) {
        Ok(v) => Ok(v),
        Err(Ok(w)) => {
            proof {
                assert forall|w2: Seq<char>| is_first_bad_word(list_words(input@), w2) implies w2 == w@ by {
                    lemma_first_bad_word_unique(list_words(input@), w2, w@);
                }
            }
            Err(quoted_message("invalid length `", &w))
        },
        Err(Err(())) => Err("lengths must be greater than zero".to_owned()),
    }
}

/// Largest piece length of the tiny-kernel ingress probe.
pub const TINY_INGRESS_CAPACITY: usize = 128;

/// Comma-separated piece lengths of the ingress-width probe: ascending,
/// distinct, each in `1..=128`.
pub fn parse_tiny_lengths(input: &str) -> (result: Result<Vec<usize>, String>)
    ensures
        forall|w: Seq<char>| is_first_bad_word(list_words(input@), w) ==> (result matches Err(m) && m@
            == "invalid length `"@ + w + seq!['`']),
        all_words_parse(list_words(input@)) && (exists|x: usize| word_value(list_words(input@), x) && !(1 <= x <= 128))
            ==> (result matches Err(m) && m@ == "lengths must be in 1..=128"@),
        all_words_parse(list_words(input@)) && (forall|x: usize| word_value(list_words(input@), x) ==> 1 <= x <= 128)
            ==> (result matches Ok(v) && strictly_increasing(v@) && forall|x: usize| v@.contains(x) <==> word_value(list_words(input@), x)),
{
    match parse_length_list(input, TINY_INGRESS_CAPACITY) {
        Ok(v) => Ok(v),
        Err(Ok(w)) => {
            proof {
                assert forall|w2: Seq<char>| is_first_bad_word(list_words(input@), w2) implies w2 == w@ by {
                    lemma_first_bad_word_unique(list_words(input@), w2, w@);
                }
            }
            Err(quoted_message("invalid length `", &w))
        },
        Err(Err(())) => Err("lengths must be in 1..=128".to_owned()),
    }
}

/// Index of the first `-`.
pub open spec fn first_dash(s: Seq<char>) -> Option<int> {
    if exists|i: int| 0 <= i < s.len() && s[i] == '-' {
        Some(choose|i: int| 0 <= i < s.len() && s[i] == '-' && forall|j: int| 0 <= j < i ==> s[j] != '-')
    } else {
        None
    }
}

/// One-based line range `START-END`, or `START` alone for thirty lines
/// after it; the error says why the text is not one.
pub open spec fn line_range(s: Seq<char>) -> Result<(usize, usize), Seq<char>> {
    let parsed: Result<(usize, usize), Seq<char>> = match first_dash(s) {
        Some(d) => {
            let start = s.subrange(0, d);
            let end = s.subrange(d + 1, s.len() as int);
            if start.len() == 0 || end.len() == 0 || end.contains('-') {
                Err("expected START-END with two positive line numbers"@)
            } else if parse_usize(start) is None {
                Err("START is not a positive line number"@)
            } else if parse_usize(end) is None {
                Err("END is not a positive line number"@)
            } else {
                Ok((parse_usize(start).unwrap(), parse_usize(end).unwrap()))
            }
        },
        None => if parse_usize(s) is None {
            Err("expected a positive line number or START-END"@)
        } else if parse_usize(s).unwrap() + 30 > usize::MAX {
            Err("line range overflows this platform"@)
        } else {
            Ok((parse_usize(s).unwrap(), (parse_usize(s).unwrap() + 30) as usize))
        },
    };
    match parsed {
        Ok((start, end)) => if start == 0 || end == 0 {
            Err("line numbers are one-based and must be greater than zero"@)
        } else if end < start {
            Err("END must be greater than or equal to START"@)
        } else {
            Ok((start, end))
        },
        Err(m) => Err(m),
    }
}

/// Parses a one-based line range.
pub fn parse_line_range(range: &str) -> (result: Result<(usize, usize), &'static str>)
    ensures
        match result {
            Ok(p) => line_range(range@) == Ok::<(usize, usize), Seq<char>>(p),
            Err(m) => line_range(range@) == Err::<(usize, usize), Seq<char>>(m@),
        },
{
    let chars = chars_of(range);
    let mut d: usize = 0;
    while d < chars.len() && chars[d] != '-'
        invariant
            d <= chars.len(),
            chars@ == range@,
            forall|j: int| 0 <= j < d ==> chars@[j] != '-',
        decreases chars.len() - d,
    {
        d = d + 1;
    }
    let (start, end) = if d < chars.len() {
        proof {
            assert(first_dash(range@) == Some(d as int)) by {
                let k = choose|i: int| 0 <= i < range@.len() && range@[i] == '-' && forall|j: int| 0 <= j < i ==> range@[j] != '-';
                if k < d {
                    assert(chars@[k] != '-');
                }
                if k > d {
                    assert(range@[d as int] != '-');
                }
            }
        }
        let mut start_chars: Vec<char> = Vec::new();
        let mut i: usize = 0;
        while i < d
            invariant
                i <= d < chars.len(),
                start_chars@ == chars@.subrange(0, i as int),
            decreases d - i,
        {
            start_chars.push(chars[i]);
            assert(start_chars@ =~= chars@.subrange(0, i + 1));
            i = i + 1;
        }
        let mut end_chars: Vec<char> = Vec::new();
        let mut has_dash = false;
        let mut k: usize = d + 1;
        while k < chars.len()
            invariant
                d < k <= chars.len(),
                end_chars@ == chars@.subrange(d + 1, k as int),
                has_dash == end_chars@.contains('-'),
            decreases chars.len() - k,
        {
            let ghost old_end = end_chars@;
            if chars[k] == '-' {
                has_dash = true;
            }
            end_chars.push(chars[k]);
            assert(end_chars@ =~= chars@.subrange(d + 1, k + 1));
            proof {
                let c = chars@[k as int];
                assert(end_chars@ == old_end.push(c));
                if old_end.contains('-') {
                    let q = choose|q: int| 0 <= q < old_end.len() && old_end[q] == '-';
                    assert(end_chars@[q] == '-');
                }
                if c == '-' {
                    assert(end_chars@[old_end.len() as int] == '-');
                }
                if end_chars@.contains('-') {
                    let q = choose|q: int| 0 <= q < end_chars@.len() && end_chars@[q] == '-';
                    if q < old_end.len() {
                        assert(old_end[q] == '-');
                    }
                }
            }
            k = k + 1;
        }
        if start_chars.len() == 0 || end_chars.len() == 0 || has_dash {
            proof {
                reveal_strlit("expected START-END with two positive line numbers");
            }
            return Err("expected START-END with two positive line numbers");
        }
        let start = match parse_usize_word(&start_chars) {
            Some(v) => v,
            None => {
                return Err("START is not a positive line number");
            },
        };
        let end = match parse_usize_word(&end_chars) {
            Some(v) => v,
            None => {
                return Err("END is not a positive line number");
            },
        };
        (start, end)
    } else {
        proof {
            assert(first_dash(range@) is None);
        }
        let start = match parse_usize_word(&chars) {
            Some(v) => v,
            None => {
                return Err("expected a positive line number or START-END");
            },
        };
        let end = match start.checked_add(30) {
            Some(v) => v,
            None => {
                return Err("line range overflows this platform");
            },
        };
        (start, end)
    };
    if start == 0 || end == 0 {
        return Err("line numbers are one-based and must be greater than zero");
    }
    if end < start {
        return Err("END must be greater than or equal to START");
    }
    Ok((start, end))
}

} // verus!
