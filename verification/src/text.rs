//! Text helpers: digits and numbers, splitting, words and lines.

use vstd::prelude::*;

verus! {

// ---------------------------------------------------------------------------
// Characters and numbers
// ---------------------------------------------------------------------------

pub open spec fn is_digit(c: char) -> bool {
    '0' <= c && c <= '9'
}

pub open spec fn digit_value(c: char) -> nat {
    (c as int - '0' as int) as nat
}

pub open spec fn digit_char(d: nat) -> char {
    (('0' as int) + d) as char
}

/// The decimal text of a natural number, without leading zeros.
pub open spec fn decimal(n: nat) -> Seq<char>
    decreases n,
{
    if n < 10 {
        seq![digit_char(n)]
    } else {
        decimal(n / 10).push(digit_char(n % 10))
    }
}

/// `s` right-aligned in a field of `width` characters filled with `'0'`
/// (the `{:0>width}` format).
pub open spec fn zero_pad(s: Seq<char>, width: nat) -> Seq<char> {
    if s.len() < width {
        Seq::new((width - s.len()) as nat, |i: int| '0') + s
    } else {
        s
    }
}

/// Why a text is not an unsigned integer.
#[derive(Clone, Copy, Debug, PartialEq, Eq, Structural)]
pub enum NumberError {
    /// The text is empty.
    Empty,
    /// A character is not a decimal digit (or the text is a lone sign).
    InvalidDigit,
    /// The value does not fit in the target type.
    TooLarge,
}

/// The value of a run of digits read from left to right; the first
/// character that is not a digit, or that makes the value exceed `max`,
/// decides the error.
pub open spec fn digits_value(s: Seq<char>, max: nat) -> Result<nat, NumberError>
    decreases s.len(),
{
    if s.len() == 0 {
        Ok(0)
    } else {
        match digits_value(s.drop_last(), max) {
            Err(e) => Err(e),
            Ok(v) => if !is_digit(s.last()) {
                Err(NumberError::InvalidDigit)
            } else if v * 10 + digit_value(s.last()) > max {
                Err(NumberError::TooLarge)
            } else {
                Ok(v * 10 + digit_value(s.last()))
            },
        }
    }
}

/// The unsigned integer (at most `max`) written by `s`: an optional `+`
/// followed by decimal digits.
pub open spec fn parse_unsigned(s: Seq<char>, max: nat) -> Result<nat, NumberError> {
    if s.len() == 0 {
        Err(NumberError::Empty)
    } else if s.len() == 1 && (s[0] == '+' || s[0] == '-') {
        Err(NumberError::InvalidDigit)
    } else if s[0] == '+' {
        digits_value(s.drop_first(), max)
    } else {
        digits_value(s, max)
    }
}

pub open spec fn agrees(r: Result<u64, NumberError>, s: Result<nat, NumberError>) -> bool {
    match s {
        Ok(v) => r == Ok::<u64, NumberError>(v as u64),
        Err(e) => r == Err::<u64, NumberError>(e),
    }
}

// ---------------------------------------------------------------------------
// Splitting
// ---------------------------------------------------------------------------

/// The pieces of `s` between occurrences of `sep` (`str::split` with a
/// character pattern): always at least one piece, empty pieces included.
pub open spec fn split_on(s: Seq<char>, sep: char) -> Seq<Seq<char>>
    decreases s.len(),
{
    if s.len() == 0 {
        seq![Seq::<char>::empty()]
    } else {
        let prev = split_on(s.drop_last(), sep);
        if s.last() == sep {
            prev.push(Seq::<char>::empty())
        } else {
            prev.update(prev.len() - 1, prev.last().push(s.last()))
        }
    }
}

pub proof fn lemma_split_on_nonempty(s: Seq<char>, sep: char)
    ensures
        split_on(s, sep).len() >= 1,
    decreases s.len(),
{
    if s.len() > 0 {
        lemma_split_on_nonempty(s.drop_last(), sep);
    }
}

/// The lowercase form of a text, as `str::to_lowercase` gives it (the
/// Unicode lowercase mapping of every character).
pub uninterp spec fn lowercase(s: Seq<char>) -> Seq<char>;

/// Calls `str::to_lowercase`; claimed: the result is `lowercase` of the
/// text.
#[verifier::external_body]
pub(crate) fn to_lowercase(s: &str) -> (res: String)
    ensures
        res@ == lowercase(s@),
{
    s.to_lowercase()
}

// ---------------------------------------------------------------------------
// Words and lines
// ---------------------------------------------------------------------------

/// The characters with Unicode's `White_Space` property (`char::is_whitespace`).
pub open spec fn is_white(c: char) -> bool {
    ('\u{9}' <= c && c <= '\u{d}') || c == ' ' || c == '\u{85}' || c == '\u{a0}' || c == '\u{1680}'
        || ('\u{2000}' <= c && c <= '\u{200a}') || c == '\u{2028}' || c == '\u{2029}' || c
        == '\u{202f}' || c == '\u{205f}' || c == '\u{3000}'
}

/// Whether a character is whitespace.
pub fn is_whitespace(c: char) -> (res: bool)
    ensures
        res == is_white(c),
{
    ('\u{9}' <= c && c <= '\u{d}') || c == ' ' || c == '\u{85}' || c == '\u{a0}' || c == '\u{1680}'
        || ('\u{2000}' <= c && c <= '\u{200a}') || c == '\u{2028}' || c == '\u{2029}' || c
        == '\u{202f}' || c == '\u{205f}' || c == '\u{3000}'
}

/// The maximal runs of characters that are not whitespace, in order
/// (`str::split_whitespace`).
pub open spec fn words(s: Seq<char>) -> Seq<Seq<char>>
    decreases s.len(),
{
    if s.len() == 0 {
        Seq::empty()
    } else {
        let w = words(s.drop_last());
        let c = s.last();
        if is_white(c) {
            w
        } else if s.len() >= 2 && !is_white(s[s.len() - 2]) {
            w.update(w.len() - 1, w.last().push(c))
        } else {
            w.push(seq![c])
        }
    }
}

/// The words of a text.
pub fn split_words(cs: &Vec<char>) -> (res: Vec<Vec<char>>)
    ensures
        res.len() == words(cs@).len(),
        forall|j: int| 0 <= j < res.len() ==> (#[trigger] res[j])@ == words(cs@)[j],
{
    let mut out: Vec<Vec<char>> = Vec::new();
    let mut cur: Vec<char> = Vec::new();
    let mut in_word = false;
    assert(cs@.take(0) =~= Seq::<char>::empty());
    for i in 0..cs.len()
        invariant
            in_word == (i > 0 && !is_white(cs@[i - 1])),
            in_word ==> words(cs@.take(i as int)).len() == out.len() + 1 && cur@ == words(
                cs@.take(i as int),
            ).last(),
            !in_word ==> words(cs@.take(i as int)).len() == out.len(),
            forall|j: int|
                0 <= j < out.len() ==> (#[trigger] out[j])@ == words(cs@.take(i as int))[j],
    {
        let c = cs[i];
        let ghost pre = cs@.take(i as int);
        let ghost next = cs@.take(i + 1);
        assert(next.drop_last() == pre);
        assert(next.last() == c);
        proof {
            if i > 0 {
                assert(next[next.len() - 2] == cs@[i - 1]);
            }
        }
        if is_whitespace(c) {
            if in_word {
                out.push(cur);
                cur = Vec::new();
                in_word = false;
            }
        } else {
            if in_word {
                cur.push(c);
            } else {
                cur = Vec::new();
                cur.push(c);
                in_word = true;
                assert(cur@ =~= seq![c]);
            }
        }
    }
    assert(cs@.take(cs.len() as int) == cs@);
    if in_word {
        out.push(cur);
    }
    out
}

/// Number of words of a text.
pub fn word_count(s: &str) -> (res: usize)
    ensures
        res == words(s@).len(),
{
    let cs = chars_of(s);
    let ws = split_words(&cs);
    ws.len()
}

/// `s` without one trailing carriage return.
pub open spec fn strip_cr(s: Seq<char>) -> Seq<char> {
    if s.len() > 0 && s.last() == '\r' {
        s.drop_last()
    } else {
        s
    }
}

/// The lines of a text (`str::lines`): split at `\n`, a `\r` right before
/// a `\n` removed, and no empty line after a final `\n`.
pub open spec fn lines(s: Seq<char>) -> Seq<Seq<char>> {
    let ps = split_on(s, '\n');
    let n = if ps.last().len() == 0 {
        ps.len() - 1
    } else {
        ps.len() as int
    };
    Seq::new(
        n as nat,
        |i: int|
            if i < ps.len() - 1 {
                strip_cr(ps[i])
            } else {
                ps[i]
            },
    )
}

/// The pieces joined with `sep` between them.
pub open spec fn join(ps: Seq<Seq<char>>, sep: Seq<char>) -> Seq<char>
    decreases ps.len(),
{
    if ps.len() == 0 {
        Seq::empty()
    } else if ps.len() == 1 {
        ps[0]
    } else {
        join(ps.drop_last(), sep) + sep + ps.last()
    }
}

// ---------------------------------------------------------------------------
// Executable helpers
// ---------------------------------------------------------------------------

/// Whether `t` is one of the strings of `v`.
pub fn contains_string(v: &Vec<String>, t: &String) -> (res: bool)
    ensures
        res == v.deep_view().contains(t@),
{
    for i in 0..v.len()
        invariant
            forall|j: int| 0 <= j < i ==> v@[j]@ != t@,
    {
        if v[i] == *t {
            assert(v.deep_view()[i as int] == t@);
            return true;
        }
    }
    proof {
        if v.deep_view().contains(t@) {
            let j = choose|j: int| 0 <= j < v.deep_view().len() && v.deep_view()[j] == t@;
            assert(v@[j]@ == t@);
        }
    }
    false
}

/// Appends one character to a string (`String::push`).
#[verifier::external_body]
pub(crate) fn push_char(s: &mut String, c: char)
    ensures
        final(s)@ == old(s)@.push(c),
{
    s.push(c);
}

/// The characters of a string, in order.
pub fn chars_of(s: &str) -> (res: Vec<char>)
    ensures
        res@ == s@,
{
    let mut res: Vec<char> = Vec::new();
    for c in it: s.chars()
        invariant
            res@ == it.seq().take(it.index() as int),
    {
        res.push(c);
    }
    res
}

/// The string made of the given characters.
pub fn string_of(cs: &Vec<char>) -> (res: String)
    ensures
        res@ == cs@,
{
    let mut res = String::new();
    for i in 0..cs.len()
        invariant
            res@ == cs@.take(i as int),
    {
        push_char(&mut res, cs[i]);
        assert(cs@.take(i + 1) == cs@.take(i as int).push(cs@[i as int]));
    }
    assert(cs@.take(cs.len() as int) == cs@);
    res
}

/// Appends the characters of `s` to `out`.
pub fn push_str_chars(out: &mut Vec<char>, s: &str)
    ensures
        final(out)@ == old(out)@ + s@,
{
    let cs = chars_of(s);
    let ghost start = out@;
    for i in 0..cs.len()
        invariant
            out@ == start + cs@.take(i as int),
    {
        out.push(cs[i]);
        assert(cs@.take(i + 1) == cs@.take(i as int).push(cs@[i as int]));
    }
    assert(cs@.take(cs.len() as int) == cs@);
}

/// Appends the characters of `s` to `out`.
pub fn push_chars(out: &mut Vec<char>, s: &Vec<char>)
    ensures
        final(out)@ == old(out)@ + s@,
{
    let ghost start = out@;
    for i in 0..s.len()
        invariant
            out@ == start + s@.take(i as int),
    {
        out.push(s[i]);
        assert(s@.take(i + 1) == s@.take(i as int).push(s@[i as int]));
    }
    assert(s@.take(s.len() as int) == s@);
}

/// Appends the decimal text of `n`.
pub fn push_decimal(out: &mut Vec<char>, n: u32)
    ensures
        final(out)@ == old(out)@ + decimal(n as nat),
    decreases n,
{
    if n >= 10 {
        push_decimal(out, n / 10);
    }
    let d = n % 10;
    let c: char = if d == 0 { '0' } else if d == 1 { '1' } else if d == 2 { '2' } else if d == 3 {
        '3'
    } else if d == 4 { '4' } else if d == 5 { '5' } else if d == 6 { '6' } else if d == 7 {
        '7'
    } else if d == 8 { '8' } else { '9' };
    assert(c == digit_char(d as nat));
    out.push(c);
}

/// Appends the decimal text of `n`, padded with `'0'` to `width` characters.
pub fn push_padded(out: &mut Vec<char>, n: u32, width: usize)
    ensures
        final(out)@ == old(out)@ + zero_pad(decimal(n as nat), width as nat),
{
    let mut digits: Vec<char> = Vec::new();
    push_decimal(&mut digits, n);
    assert(digits@ == decimal(n as nat));
    let ghost start = out@;
    if digits.len() < width {
        let fill = width - digits.len();
        let mut k: usize = 0;
        while k < fill
            invariant
                k <= fill,
                out@ == start + Seq::new(k as nat, |i: int| '0'),
            decreases fill - k,
        {
            out.push('0');
            k += 1;
            assert(out@ =~= start + Seq::new(k as nat, |i: int| '0'));
        }
        push_chars(out, &digits);
        assert(out@ =~= start + zero_pad(decimal(n as nat), width as nat));
    } else {
        push_chars(out, &digits);
    }
}

/// Parses `cs[start..end]` as an unsigned integer of at most `max`.
pub fn parse_unsigned_in(cs: &Vec<char>, start: usize, end: usize, max: u64) -> (res: Result<
    u64,
    NumberError,
>)
    requires
        start <= end <= cs.len(),
    ensures
        agrees(res, parse_unsigned(cs@.subrange(start as int, end as int), max as nat)),
{
    let ghost s = cs@.subrange(start as int, end as int);
    if start == end {
        return Err(NumberError::Empty);
    }
    if end - start == 1 && (cs[start] == '+' || cs[start] == '-') {
        return Err(NumberError::InvalidDigit);
    }
    let first = if cs[start] == '+' {
        start + 1
    } else {
        start
    };
    let ghost d = cs@.subrange(first as int, end as int);
    assert(cs[start as int] == '+' ==> d == s.drop_first());
    assert(cs[start as int] != '+' ==> d == s);
    assert(parse_unsigned(s, max as nat) == digits_value(d, max as nat));
    let mut acc: u64 = 0;
    let mut i = first;
    assert(cs@.subrange(first as int, first as int) =~= Seq::<char>::empty());
    while i < end
        invariant
            first <= i <= end <= cs.len(),
            acc <= max,
            d == cs@.subrange(first as int, end as int),
            s == cs@.subrange(start as int, end as int),
            parse_unsigned(s, max as nat) == digits_value(d, max as nat),
            digits_value(cs@.subrange(first as int, i as int), max as nat) == Ok::<
                nat,
                NumberError,
            >(acc as nat),
        decreases end - i,
    {
        let c = cs[i];
        let ghost pre = cs@.subrange(first as int, i as int);
        let ghost next = cs@.subrange(first as int, i + 1);
        assert(next.drop_last() == pre);
        assert(next.last() == c);
        if !('0' <= c && c <= '9') {
            proof {
                assert(d.take((i + 1 - first) as int) == next);
                lemma_digits_error_extends(d, (i + 1 - first) as int, max as nat);
            }
            return Err(NumberError::InvalidDigit);
        }
        let v = ((c as u32) - ('0' as u32)) as u128;
        assert(v == digit_value(c));
        if (acc as u128) * 10 + v > max as u128 {
            proof {
                assert(d.take((i + 1 - first) as int) == next);
                lemma_digits_error_extends(d, (i + 1 - first) as int, max as nat);
            }
            return Err(NumberError::TooLarge);
        }
        acc = ((acc as u128) * 10 + v) as u64;
        i += 1;
    }
    Ok(acc)
}

/// The pieces of `cs` between occurrences of `sep`.
pub fn split_chars(cs: &Vec<char>, sep: char) -> (res: Vec<Vec<char>>)
    ensures
        res.len() == split_on(cs@, sep).len(),
        forall|j: int| 0 <= j < res.len() ==> (#[trigger] res[j])@ == split_on(cs@, sep)[j],
{
    let mut pieces: Vec<Vec<char>> = Vec::new();
    let mut cur: Vec<char> = Vec::new();
    assert(cs@.take(0) =~= Seq::<char>::empty());
    for i in 0..cs.len()
        invariant
            split_on(cs@.take(i as int), sep).len() == pieces.len() + 1,
            forall|j: int|
                0 <= j < pieces.len() ==> (#[trigger] pieces[j])@ == split_on(
                    cs@.take(i as int),
                    sep,
                )[j],
            cur@ == split_on(cs@.take(i as int), sep).last(),
    {
        let ghost pre = cs@.take(i as int);
        let ghost next = cs@.take(i + 1);
        assert(next.drop_last() == pre);
        assert(next.last() == cs[i as int]);
        if cs[i] == sep {
            pieces.push(cur);
            cur = Vec::new();
        } else {
            cur.push(cs[i]);
        }
        assert(split_on(next, sep).len() == pieces.len() + 1);
    }
    assert(cs@.take(cs.len() as int) == cs@);
    pieces.push(cur);
    pieces
}

/// Once a prefix fails to parse, so does the whole run.
pub proof fn lemma_digits_error_extends(s: Seq<char>, k: int, max: nat)
    requires
        0 <= k <= s.len(),
        digits_value(s.take(k), max) is Err,
    ensures
        digits_value(s, max) == digits_value(s.take(k), max),
    decreases s.len() - k,
{
    if k < s.len() {
        assert(s.take(k + 1).drop_last() == s.take(k));
        lemma_digits_error_extends(s, k + 1, max);
    } else {
        assert(s.take(k) == s);
    }
}


/// A run of characters none of which is whitespace is one word.
pub proof fn lemma_words_of_run(s: Seq<char>)
    requires
        s.len() > 0,
        forall|i: int| 0 <= i < s.len() ==> !is_white(#[trigger] s[i]),
    ensures
        words(s) == seq![s],
    decreases s.len(),
{
    assert(s.last() == s[s.len() - 1]);
    if s.len() == 1 {
        assert(s.drop_last() =~= Seq::<char>::empty());
        assert(words(s.drop_last()) =~= Seq::<Seq<char>>::empty());
        assert(seq![s.last()] =~= s);
    } else {
        lemma_words_of_run(s.drop_last());
        assert(s[s.len() - 2] == s.drop_last()[s.len() - 2]);
        assert(s.drop_last().push(s.last()) =~= s);
    }
}

proof fn lemma_words_nonempty(s: Seq<char>)
    requires
        s.len() > 0,
        !is_white(s.last()),
    ensures
        words(s).len() > 0,
    decreases s.len(),
{
    if s.len() >= 2 && !is_white(s[s.len() - 2]) {
        assert(s.drop_last().last() == s[s.len() - 2]);
        lemma_words_nonempty(s.drop_last());
    }
}

/// A text that is all whitespace has no words.
pub proof fn lemma_words_of_blank(s: Seq<char>)
    requires
        forall|i: int| 0 <= i < s.len() ==> is_white(#[trigger] s[i]),
    ensures
        words(s).len() == 0,
    decreases s.len(),
{
    if s.len() > 0 {
        assert(s.last() == s[s.len() - 1]);
        lemma_words_of_blank(s.drop_last());
    }
}

/// Whitespace separates words: the words of `a`, a whitespace character and
/// `b` are the words of `a` followed by the words of `b`.
pub proof fn lemma_words_split_at_white(a: Seq<char>, c: char, b: Seq<char>)
    requires
        is_white(c),
    ensures
        words(a.push(c) + b) == words(a) + words(b),
    decreases b.len(),
{
    let x = a.push(c) + b;
    if b.len() == 0 {
        assert(x =~= a.push(c));
        assert(x.drop_last() =~= a);
        assert(words(a) + words(b) =~= words(a));
    } else {
        lemma_words_split_at_white(a, c, b.drop_last());
        assert(x.drop_last() =~= a.push(c) + b.drop_last());
        assert(x.last() == b.last());
        let wa = words(a);
        let wb = words(b.drop_last());
        if b.len() >= 2 {
            assert(x[x.len() - 2] == b[b.len() - 2]);
            if !is_white(b[b.len() - 2]) {
                assert(b.drop_last().last() == b[b.len() - 2]);
                lemma_words_nonempty(b.drop_last());
            }
        } else {
            assert(x[x.len() - 2] == c);
            assert(b.drop_last() =~= Seq::<char>::empty());
        }
        if is_white(b.last()) {
        } else if b.len() >= 2 && !is_white(b[b.len() - 2]) {
            assert((wa + wb).update((wa + wb).len() - 1, (wa + wb).last().push(b.last())) =~= wa
                + wb.update(wb.len() - 1, wb.last().push(b.last())));
        } else {
            assert((wa + wb).push(seq![b.last()]) =~= wa + wb.push(seq![b.last()]));
        }
    }
}


/// Splitting at a separator loses nothing and cuts everywhere: joining the
/// pieces with the separator gives the text back, and no piece holds the
/// separator.
pub proof fn lemma_split_on_join(s: Seq<char>, sep: char)
    ensures
        join(split_on(s, sep), seq![sep]) == s,
        forall|k: int|
            0 <= k < split_on(s, sep).len() ==> !(#[trigger] split_on(s, sep)[k]).contains(sep),
    decreases s.len(),
{
    lemma_split_on_nonempty(s, sep);
    if s.len() == 0 {
        assert(split_on(s, sep)[0] =~= Seq::<char>::empty());
        assert(s =~= Seq::<char>::empty());
    } else {
        let p = split_on(s.drop_last(), sep);
        lemma_split_on_join(s.drop_last(), sep);
        lemma_split_on_nonempty(s.drop_last(), sep);
        let c = s.last();
        if c == sep {
            let q = p.push(Seq::<char>::empty());
            assert(q.drop_last() =~= p);
            assert(join(q, seq![sep]) =~= s.drop_last() + seq![sep] + Seq::<char>::empty());
            assert(s =~= s.drop_last() + seq![sep]);
            assert forall|k: int| 0 <= k < q.len() implies !(#[trigger] q[k]).contains(sep) by {
                if k < p.len() {
                    assert(q[k] == p[k]);
                } else {
                    assert(q[k] =~= Seq::<char>::empty());
                }
            }
        } else {
            let n = p.len() - 1;
            let q = p.update(n, p.last().push(c));
            if p.len() == 1 {
                assert(join(p, seq![sep]) == p[0]);
                assert(join(q, seq![sep]) == q[0]);
                assert(s =~= s.drop_last().push(c));
            } else {
                assert(q.drop_last() =~= p.drop_last());
                assert(join(q, seq![sep]) =~= join(p.drop_last(), seq![sep]) + seq![sep] + p.last().push(c));
                assert(join(p, seq![sep]) == join(p.drop_last(), seq![sep]) + seq![sep] + p.last());
                assert(s =~= s.drop_last().push(c));
            }
            assert forall|k: int| 0 <= k < q.len() implies !(#[trigger] q[k]).contains(sep) by {
                if k < n {
                    assert(q[k] == p[k]);
                } else {
                    assert(q[k] == p[n].push(c));
                    assert(!p[n].contains(sep));
                    if q[k].contains(sep) {
                        let i = choose|i: int| 0 <= i < q[k].len() && q[k][i] == sep;
                        if i < p[n].len() {
                            assert(p[n][i] == sep);
                        }
                    }
                }
            }
        }
    }
}

} // verus!
