//! Search queries: decoding them and rewriting tag searches.

use vstd::prelude::*;
use vstd::string::StringExecFns;
use vstd::utf8::{decode_utf8, encode_utf8, valid_utf8};

use crate::err::Error;
use crate::index::facet_of;
use crate::text::{chars_of, is_white, push_chars, push_str_chars, split_words, string_of, words};

verus! {

/// The query string of the search page.
pub struct SearchQuery {
    pub q: Option<String>,
}

/// An absent or empty parameter counts as no parameter.
pub fn empty_string_as_none(opt: Option<String>) -> (res: Option<String>)
    ensures
        match opt {
            Some(s) => if s@.len() == 0 {
                res is None
            } else {
                res == Some(s)
            },
            None => res is None,
        },
{
    match opt {
        Some(s) => {
            if s.as_str().unicode_len() == 0 {
                None
            } else {
                Some(s)
            }
        },
        None => None,
    }
}

pub open spec fn is_hex_byte(b: u8) -> bool {
    (48 <= b <= 57) || (65 <= b <= 70) || (97 <= b <= 102)
}

pub open spec fn hex_byte_value(b: u8) -> int {
    if 48 <= b <= 57 {
        b - 48
    } else if 65 <= b <= 70 {
        b - 55
    } else {
        b - 87
    }
}

/// Percent-decoding of bytes: every `%` followed by two hexadecimal digits
/// becomes the byte they write; any other `%` stays as it is.
pub open spec fn percent_decode(d: Seq<u8>) -> Seq<u8>
    decreases d.len(),
{
    if d.len() == 0 {
        Seq::empty()
    } else if d[0] != 37 {
        seq![d[0]] + percent_decode(d.skip(1))
    } else if d.len() < 3 {
        d
    } else if !is_hex_byte(d[1]) {
        seq![37u8] + percent_decode(d.skip(1))
    } else if !is_hex_byte(d[2]) {
        seq![37u8, d[1]] + percent_decode(d.skip(2))
    } else {
        seq![(hex_byte_value(d[1]) * 16 + hex_byte_value(d[2])) as u8] + percent_decode(d.skip(3))
    }
}

/// What `urlencoding::decode` gives for a text: its UTF-8 bytes
/// percent-decoded, read as UTF-8; none when they are not UTF-8.
pub open spec fn url_decoded(s: Seq<char>) -> Option<Seq<char>> {
    let d = percent_decode(encode_utf8(s));
    if valid_utf8(d) {
        Some(decode_utf8(d))
    } else {
        None
    }
}

/// Calls `urlencoding::decode`. Claimed, as the crate's `decode` and
/// `decode_binary` show: the outcome is `url_decoded` of the text, and a text without `%` comes back unchanged (the crate returns
/// it borrowed).
#[verifier::external_body]
fn url_decode(s: &str) -> (res: Option<String>)
    ensures
        res.is_some() == url_decoded(s@).is_some(),
        res.is_some() ==> res.unwrap()@ == url_decoded(s@).unwrap(),
        !s@.contains('%') ==> (res.is_some() && res.unwrap()@ == s@),
{
    urlencoding::decode(s).ok().map(|c| c.into_owned())
}

pub open spec fn tag_marker() -> Seq<char> {
    seq!['t', 'a', 'g', ':']
}

pub open spec fn has_tag_marker(s: Seq<char>) -> bool {
    exists|i: int| 0 <= i && i + 4 <= s.len() && #[trigger] s.subrange(i, i + 4) == tag_marker()
}

/// A `tag:name` word becomes `tag:/tag/name`, the facet it searches.
pub open spec fn rewrite_word(w: Seq<char>) -> Seq<char> {
    if w.len() >= 4 && w.take(4) == tag_marker() {
        seq!['t', 'a', 'g', ':', '/', 't', 'a', 'g', '/'] + w.skip(4)
    } else {
        w
    }
}

/// The rewritten words, each followed by a space.
pub open spec fn rewrite_words(ws: Seq<Seq<char>>) -> Seq<char>
    decreases ws.len(),
{
    if ws.len() == 0 {
        Seq::empty()
    } else {
        rewrite_words(ws.drop_last()) + rewrite_word(ws.last()) + seq![' ']
    }
}

/// The query handed to the index: a query that mentions `tag:` has its
/// words rewritten, any other is used as it is.
pub open spec fn index_query(q: Seq<char>) -> Seq<char> {
    if has_tag_marker(q) {
        rewrite_words(words(q))
    } else {
        q
    }
}

fn has_marker(cs: &Vec<char>) -> (res: bool)
    ensures
        res == has_tag_marker(cs@),
{
    let n = cs.len();
    let mut i: usize = 0;
    while i < n && n - i >= 4
        invariant
            i <= n == cs@.len(),
            forall|k: int| 0 <= k < i ==> #[trigger] cs@.subrange(k, k + 4) != tag_marker(),
        decreases n - i,
    {
        if cs[i] == 't' && cs[i + 1] == 'a' && cs[i + 2] == 'g' && cs[i + 3] == ':' {
            assert(cs@.subrange(i as int, i + 4) =~= tag_marker());
            return true;
        }
        assert(cs@.subrange(i as int, i + 4)[0] == cs@[i as int]);
        assert(cs@.subrange(i as int, i + 4)[1] == cs@[i + 1]);
        assert(cs@.subrange(i as int, i + 4)[2] == cs@[i + 2]);
        assert(cs@.subrange(i as int, i + 4)[3] == cs@[i + 3]);
        i += 1;
    }
    false
}

/// Turns `tag:name` words into facet searches.
pub fn rewrite_query(query: &str) -> (res: String)
    ensures
        res@ == index_query(query@),
{
    let cs = chars_of(query);
    if !has_marker(&cs) {
        return String::from_str(query);
    }
    let ws = split_words(&cs);
    let mut out: Vec<char> = Vec::new();
    let ghost wv = words(cs@);
    for i in 0..ws.len()
        invariant
            ws.len() == wv.len(),
            wv == words(cs@),
            forall|j: int| 0 <= j < ws.len() ==> (#[trigger] ws[j])@ == wv[j],
            out@ == rewrite_words(wv.take(i as int)),
    {
        let w = &ws[i];
        assert(wv.take(i + 1).drop_last() =~= wv.take(i as int));
        assert(wv.take(i + 1).last() == w@);
        if w.len() >= 4 && w[0] == 't' && w[1] == 'a' && w[2] == 'g' && w[3] == ':' {
            assert(w@.take(4) =~= tag_marker());
            proof {
                reveal_strlit("tag:/tag/");
            }
            push_str_chars(&mut out, "tag:/tag/");
            let mut k: usize = 4;
            while k < w.len()
                invariant
                    4 <= k <= w.len(),
                    out@ == rewrite_words(wv.take(i as int)) + "tag:/tag/"@ + w@.subrange(4, k as int),
                decreases w.len() - k,
            {
                out.push(w[k]);
                k += 1;
                assert(out@ =~= rewrite_words(wv.take(i as int)) + "tag:/tag/"@ + w@.subrange(
                    4,
                    k as int,
                ));
            }
            assert(w@.subrange(4, w@.len() as int) =~= w@.skip(4));
        } else {
            proof {
                if w@.len() >= 4 {
                    assert(w@.take(4)[0] == w@[0]);
                    assert(w@.take(4)[1] == w@[1]);
                    assert(w@.take(4)[2] == w@[2]);
                    assert(w@.take(4)[3] == w@[3]);
                }
            }
            push_chars(&mut out, w);
        }
        out.push(' ');
        assert(out@ =~= rewrite_words(wv.take(i + 1)));
    }
    assert(wv.take(ws.len() as int) =~= wv);
    string_of(&out)
}

proof fn lemma_words_of_one_word(s: Seq<char>)
    requires
        s.len() > 0,
        forall|i: int| 0 <= i < s.len() ==> !is_white(#[trigger] s[i]),
    ensures
        words(s) == seq![s],
{
    crate::text::lemma_words_of_run(s);
}

proof fn lemma_marker_word(t: Seq<char>)
    requires
        forall|i: int| 0 <= i < t.len() ==> !is_white(#[trigger] t[i]),
    ensures
        forall|i: int|
            0 <= i < (tag_marker() + t).len() ==> !is_white(#[trigger] (tag_marker() + t)[i]),
{
    let q = tag_marker() + t;
    assert forall|i: int| 0 <= i < q.len() implies !is_white(#[trigger] q[i]) by {
        if i >= 4 {
            assert(q[i] == t[i - 4]);
        } else {
            assert(q[i] == tag_marker()[i]);
        }
    }
}

/// Searching `tag:<name>` for a tag written without spaces asks the index
/// for exactly the facet under which writings carrying that tag are indexed.
pub proof fn lemma_tag_query_names_facet(t: Seq<char>)
    requires
        forall|i: int| 0 <= i < t.len() ==> !is_white(#[trigger] t[i]),
    ensures
        index_query(tag_marker() + t) == tag_marker() + facet_of(t) + seq![' '],
{
    let q = tag_marker() + t;
    let start: int = 0;
    assert(q.subrange(start, start + 4) =~= tag_marker());
    assert(has_tag_marker(q));
    lemma_marker_word(t);
    lemma_words_of_one_word(q);
    assert(q.take(4) =~= tag_marker());
    assert(q.skip(4) =~= t);
    let ws = seq![q];
    assert(ws.drop_last() =~= Seq::<Seq<char>>::empty());
    assert(ws.last() == q);
    assert(rewrite_words(Seq::<Seq<char>>::empty()) == Seq::<char>::empty());
    assert(rewrite_word(q) =~= tag_marker() + facet_of(t));
    assert(rewrite_words(ws) =~= tag_marker() + facet_of(t) + seq![' ']);
}

pub open spec fn decode_failure() -> Seq<char> {
    seq!['o', 'o', 'p', 's']
}

/// Decodes a search query and prepares it for the index: the decoded text
/// (as the page shows it) and the query to run. Fails when the query does
/// not decode to UTF-8.
pub fn prepare_query(raw: &str) -> (res: Result<(String, String), Error>)
    ensures
        match url_decoded(raw@) {
            Some(q) => res matches Ok(p) && p.0@ == q && p.1@ == index_query(q),
            None => res matches Err(Error::Internal(m)) && m@ == decode_failure(),
        },
{
    match url_decode(raw) {
        Some(q) => {
            let rewritten = rewrite_query(q.as_str());
            Ok((q, rewritten))
        },
        None => {
            proof {
                reveal_strlit("oops");
            }
            let m = String::from_str("oops");
            assert(m@ =~= decode_failure());
            Err(Error::Internal(m))
        },
    }
}


/// One word of a search as the index receives it, followed by a space.
pub open spec fn searched_word(w: Seq<char>) -> Seq<char> {
    (if w.len() >= 4 && w.take(4) == seq!['t', 'a', 'g', ':'] {
        seq!['t', 'a', 'g', ':', '/', 't', 'a', 'g', '/'] + w.skip(4)
    } else {
        w
    }) + seq![' ']
}

proof fn lemma_rewrite_words_flatten(ws: Seq<Seq<char>>)
    ensures
        rewrite_words(ws) == ws.map_values(|w: Seq<char>| searched_word(w)).flatten(),
    decreases ws.len(),
{
    if ws.len() > 0 {
        lemma_rewrite_words_flatten(ws.drop_last());
        let f = |w: Seq<char>| searched_word(w);
        assert(ws.map_values(f) =~= ws.drop_last().map_values(f).push(searched_word(ws.last())));
        ws.drop_last().map_values(f).lemma_flatten_push(searched_word(ws.last()));
        assert(rewrite_words(ws) =~= rewrite_words(ws.drop_last()) + searched_word(ws.last()));
    }
}

/// The query that a search sends to the index: when the query mentions
/// `tag:` anywhere, each of its words in order, each followed by a space,
/// every word that starts with `tag:` becoming `tag:/tag/` and the rest of
/// the word, independently of the other words; otherwise the query itself.
pub proof fn lemma_query_words_rewritten(q: Seq<char>)
    ensures
        (exists|i: int| 0 <= i && i + 4 <= q.len() && #[trigger] q.subrange(i, i + 4) == seq!['t', 'a', 'g', ':'])
            ==> index_query(q) == words(q).map_values(|w: Seq<char>| searched_word(w)).flatten(),
        !(exists|i: int| 0 <= i && i + 4 <= q.len() && #[trigger] q.subrange(i, i + 4) == seq!['t', 'a', 'g', ':'])
            ==> index_query(q) == q,
{
    lemma_rewrite_words_flatten(words(q));
}

} // verus!
