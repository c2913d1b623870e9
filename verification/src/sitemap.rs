//! The sitemap: which addresses it lists and its XML.

use vstd::prelude::*;
use vstd::string::StringExecFns;

use crate::date::{
    date_error_name, is_calendar_date, midnight, rfc3339_midnight_text, rfc3339_text, DateTriple,
    RealDateTime,
};
use crate::err::Error;
use crate::fossil::Writing;
use crate::paths::{path_slug, tag_path, tag_url_for, writing_path, writing_url_for};
use crate::text::{chars_of, contains_string, push_char};

verus! {

// ---------------------------------------------------------------------------
// Entries
// ---------------------------------------------------------------------------

/// One `<url>` of the sitemap: an address and, when known, the RFC 3339
/// time it last changed.
pub struct UrlEntry {
    loc: String,
    lastmod: Option<String>,
}

impl UrlEntry {
    pub closed spec fn loc(&self) -> Seq<char> {
        self.loc@
    }

    pub closed spec fn lastmod(&self) -> Option<Seq<char>> {
        self.lastmod.deep_view()
    }

    /// An entry for `loc`, last modified at `dt` taken as UTC.
    pub fn new(loc: String, dt: Option<RealDateTime>) -> (res: Self)
        ensures
            res.loc() == loc@,
            res.lastmod() == match dt {
                Some(d) => Some(rfc3339_text(d@)),
                None => None,
            },
    {
        let lastmod = match dt {
            Some(d) => Some(d.rfc3339()),
            None => None,
        };
        UrlEntry { loc, lastmod }
    }
}

impl View for UrlEntry {
    type V = (Seq<char>, Option<Seq<char>>);

    open spec fn view(&self) -> (Seq<char>, Option<Seq<char>>) {
        (self.loc(), self.lastmod())
    }
}

pub open spec fn lastmod_text(d: Option<DateTriple>) -> Option<Seq<char>> {
    match d {
        Some(x) => Some(rfc3339_midnight_text(x)),
        None => None,
    }
}

// ---------------------------------------------------------------------------
// Escaping
// ---------------------------------------------------------------------------

/// What a character becomes in a sitemap address.
pub open spec fn escape_char(c: char) -> Seq<char> {
    if c == '&' {
        seq!['&', 'a', 'm', 'p', ';']
    } else if c == '<' {
        seq!['&', 'l', 't', ';']
    } else if c == '>' {
        seq!['&', 'g', 't', ';']
    } else if c == '"' {
        seq!['&', 'q', 'u', 'o', 't', ';']
    } else if c == '\'' {
        seq!['&', 'a', 'p', 'o', 's', ';']
    } else if c == ' ' {
        seq!['%', '2', '0']
    } else {
        seq![c]
    }
}

/// `s` with XML's special characters written as entities and spaces as
/// `%20`.
pub open spec fn escape_xml(s: Seq<char>) -> Seq<char>
    decreases s.len(),
{
    if s.len() == 0 {
        Seq::empty()
    } else {
        escape_xml(s.drop_last()) + escape_char(s.last())
    }
}

/// Escapes a text for a sitemap address.
pub fn xml_escape(s: &str) -> (res: String)
    ensures
        res@ == escape_xml(s@),
{
    let cs = chars_of(s);
    let mut out = String::new();
    for i in 0..cs.len()
        invariant
            out@ == escape_xml(cs@.take(i as int)),
    {
        let c = cs[i];
        assert(cs@.take(i + 1).drop_last() =~= cs@.take(i as int));
        assert(cs@.take(i + 1).last() == c);
        proof {
            reveal_strlit("&amp;");
            reveal_strlit("&lt;");
            reveal_strlit("&gt;");
            reveal_strlit("&quot;");
            reveal_strlit("&apos;");
            reveal_strlit("%20");
        }
        if c == '&' {
            out.append("&amp;");
        } else if c == '<' {
            out.append("&lt;");
        } else if c == '>' {
            out.append("&gt;");
        } else if c == '"' {
            out.append("&quot;");
        } else if c == '\'' {
            out.append("&apos;");
        } else if c == ' ' {
            out.append("%20");
        } else {
            push_char(&mut out, c);
        }
        assert(out@ =~= escape_xml(cs@.take(i + 1)));
    }
    assert(cs@.take(cs.len() as int) =~= cs@);
    out
}

/// Every occurrence of `c` in `s` replaced by `r` (`str::replace` with a
/// character pattern).
pub open spec fn replace_char(s: Seq<char>, c: char, r: Seq<char>) -> Seq<char>
    decreases s.len(),
{
    if s.len() == 0 {
        Seq::empty()
    } else {
        replace_char(s.drop_last(), c, r) + if s.last() == c {
            r
        } else {
            seq![s.last()]
        }
    }
}

proof fn lemma_replace_concat(a: Seq<char>, b: Seq<char>, c: char, r: Seq<char>)
    ensures
        replace_char(a + b, c, r) == replace_char(a, c, r) + replace_char(b, c, r),
    decreases b.len(),
{
    if b.len() == 0 {
        assert(a + b =~= a);
        assert(replace_char(a, c, r) + replace_char(b, c, r) =~= replace_char(a, c, r));
    } else {
        lemma_replace_concat(a, b.drop_last(), c, r);
        assert((a + b).drop_last() =~= a + b.drop_last());
        assert((a + b).last() == b.last());
    }
}

pub open spec fn replace_chain(s: Seq<char>) -> Seq<char> {
    replace_char(
        replace_char(
            replace_char(
                replace_char(
                    replace_char(replace_char(s, '&', seq!['&', 'a', 'm', 'p', ';']), '<', seq!['&', 'l', 't', ';']),
                    '>',
                    seq!['&', 'g', 't', ';'],
                ),
                '"',
                seq!['&', 'q', 'u', 'o', 't', ';'],
            ),
            '\'',
            seq!['&', 'a', 'p', 'o', 's', ';'],
        ),
        ' ',
        seq!['%', '2', '0'],
    )
}

proof fn lemma_replace_chain_concat(a: Seq<char>, b: Seq<char>)
    ensures
        replace_chain(a + b) == replace_chain(a) + replace_chain(b),
{
    let r1 = seq!['&', 'a', 'm', 'p', ';'];
    let r2 = seq!['&', 'l', 't', ';'];
    let r3 = seq!['&', 'g', 't', ';'];
    let r4 = seq!['&', 'q', 'u', 'o', 't', ';'];
    let r5 = seq!['&', 'a', 'p', 'o', 's', ';'];
    let r6 = seq!['%', '2', '0'];
    lemma_replace_concat(a, b, '&', r1);
    let a1 = replace_char(a, '&', r1);
    let b1 = replace_char(b, '&', r1);
    lemma_replace_concat(a1, b1, '<', r2);
    let a2 = replace_char(a1, '<', r2);
    let b2 = replace_char(b1, '<', r2);
    lemma_replace_concat(a2, b2, '>', r3);
    let a3 = replace_char(a2, '>', r3);
    let b3 = replace_char(b2, '>', r3);
    lemma_replace_concat(a3, b3, '"', r4);
    let a4 = replace_char(a3, '"', r4);
    let b4 = replace_char(b3, '"', r4);
    lemma_replace_concat(a4, b4, '\'', r5);
    let a5 = replace_char(a4, '\'', r5);
    let b5 = replace_char(b4, '\'', r5);
    lemma_replace_concat(a5, b5, ' ', r6);
}

proof fn lemma_replace_untouched(s: Seq<char>, c: char, r: Seq<char>)
    requires
        !s.contains(c),
    ensures
        replace_char(s, c, r) == s,
    decreases s.len(),
{
    if s.len() > 0 {
        assert(!s.drop_last().contains(c)) by {
            if s.drop_last().contains(c) {
                let i = choose|i: int| 0 <= i < s.drop_last().len() && s.drop_last()[i] == c;
                assert(s[i] == c);
            }
        }
        assert(s.last() == s[s.len() - 1]);
        lemma_replace_untouched(s.drop_last(), c, r);
        assert(s.drop_last() + seq![s.last()] =~= s);
    }
}

proof fn lemma_replace_single(x: char, c: char, r: Seq<char>)
    ensures
        replace_char(seq![x], c, r) == if x == c {
            r
        } else {
            seq![x]
        },
{
    assert(seq![x].drop_last() =~= Seq::<char>::empty());
    assert(seq![x].last() == x);
    assert(replace_char(Seq::<char>::empty(), c, r) == Seq::<char>::empty());
    assert(Seq::<char>::empty() + r =~= r);
    assert(Seq::<char>::empty() + seq![x] =~= seq![x]);
}

proof fn lemma_replace_chain_char(x: char)
    ensures
        replace_chain(seq![x]) == escape_char(x),
{
    let r1 = seq!['&', 'a', 'm', 'p', ';'];
    let r2 = seq!['&', 'l', 't', ';'];
    let r3 = seq!['&', 'g', 't', ';'];
    let r4 = seq!['&', 'q', 'u', 'o', 't', ';'];
    let r5 = seq!['&', 'a', 'p', 'o', 's', ';'];
    let r6 = seq!['%', '2', '0'];
    lemma_replace_single(x, '&', r1);
    let s1 = replace_char(seq![x], '&', r1);
    if x == '&' {
        assert(!s1.contains('<')) by { assert(forall|i: int| 0 <= i < s1.len() ==> s1[i] != '<'); }
        lemma_replace_untouched(s1, '<', r2);
        assert(!s1.contains('>')) by { assert(forall|i: int| 0 <= i < s1.len() ==> s1[i] != '>'); }
        lemma_replace_untouched(s1, '>', r3);
        assert(!s1.contains('"')) by { assert(forall|i: int| 0 <= i < s1.len() ==> s1[i] != '"'); }
        lemma_replace_untouched(s1, '"', r4);
        assert(!s1.contains('\'')) by { assert(forall|i: int| 0 <= i < s1.len() ==> s1[i] != '\''); }
        lemma_replace_untouched(s1, '\'', r5);
        assert(!s1.contains(' ')) by { assert(forall|i: int| 0 <= i < s1.len() ==> s1[i] != ' '); }
        lemma_replace_untouched(s1, ' ', r6);
    } else {
        lemma_replace_single(x, '<', r2);
        let s2 = replace_char(seq![x], '<', r2);
        if x == '<' {
            assert(!s2.contains('>')) by { assert(forall|i: int| 0 <= i < s2.len() ==> s2[i] != '>'); }
            lemma_replace_untouched(s2, '>', r3);
            assert(!s2.contains('"')) by { assert(forall|i: int| 0 <= i < s2.len() ==> s2[i] != '"'); }
            lemma_replace_untouched(s2, '"', r4);
            assert(!s2.contains('\'')) by { assert(forall|i: int| 0 <= i < s2.len() ==> s2[i] != '\''); }
            lemma_replace_untouched(s2, '\'', r5);
            assert(!s2.contains(' ')) by { assert(forall|i: int| 0 <= i < s2.len() ==> s2[i] != ' '); }
            lemma_replace_untouched(s2, ' ', r6);
        } else {
            lemma_replace_single(x, '>', r3);
            let s3 = replace_char(seq![x], '>', r3);
            if x == '>' {
                assert(!s3.contains('"')) by { assert(forall|i: int| 0 <= i < s3.len() ==> s3[i] != '"'); }
                lemma_replace_untouched(s3, '"', r4);
                assert(!s3.contains('\'')) by { assert(forall|i: int| 0 <= i < s3.len() ==> s3[i] != '\''); }
                lemma_replace_untouched(s3, '\'', r5);
                assert(!s3.contains(' ')) by { assert(forall|i: int| 0 <= i < s3.len() ==> s3[i] != ' '); }
                lemma_replace_untouched(s3, ' ', r6);
            } else {
                lemma_replace_single(x, '"', r4);
                let s4 = replace_char(seq![x], '"', r4);
                if x == '"' {
                    assert(!s4.contains('\'')) by { assert(forall|i: int| 0 <= i < s4.len() ==> s4[i] != '\''); }
                    lemma_replace_untouched(s4, '\'', r5);
                    assert(!s4.contains(' ')) by { assert(forall|i: int| 0 <= i < s4.len() ==> s4[i] != ' '); }
                    lemma_replace_untouched(s4, ' ', r6);
                } else {
                    lemma_replace_single(x, '\'', r5);
                    let s5 = replace_char(seq![x], '\'', r5);
                    if x == '\'' {
                        assert(!s5.contains(' ')) by { assert(forall|i: int| 0 <= i < s5.len() ==> s5[i] != ' '); }
                        lemma_replace_untouched(s5, ' ', r6);
                    } else {
                        lemma_replace_single(x, ' ', r6);
                    }
                }
            }
        }
    }
}

/// Escaping a sitemap address is the same as replacing, one after the
/// other, every `&`, `<`, `>`, `"`, `'` and space in the whole text: no
/// replacement brings in a character that a later one replaces.
pub proof fn lemma_escape_is_replace_chain(s: Seq<char>)
    ensures
        escape_xml(s) == replace_chain(s),
    decreases s.len(),
{
    if s.len() == 0 {
        assert(replace_chain(s) =~= Seq::<char>::empty());
    } else {
        lemma_escape_is_replace_chain(s.drop_last());
        assert(s =~= s.drop_last() + seq![s.last()]);
        lemma_replace_chain_concat(s.drop_last(), seq![s.last()]);
        lemma_replace_chain_char(s.last());
    }
}

pub open spec fn markup_free(s: Seq<char>) -> bool {
    forall|i: int|
        0 <= i < s.len() ==> #[trigger] s[i] != '<' && s[i] != '>' && s[i] != '"' && s[i] != '\''
            && s[i] != ' '
}

/// An escaped address holds no `<`, `>`, quote or space: it cannot end the
/// element it stands in or break the document.
pub proof fn lemma_escape_markup_free(s: Seq<char>)
    ensures
        markup_free(escape_xml(s)),
    decreases s.len(),
{
    if s.len() > 0 {
        lemma_escape_markup_free(s.drop_last());
        let a = escape_xml(s.drop_last());
        let b = escape_char(s.last());
        assert(markup_free(b));
        assert forall|i: int| 0 <= i < (a + b).len() implies #[trigger] (a + b)[i] != '<' && (a
            + b)[i] != '>' && (a + b)[i] != '"' && (a + b)[i] != '\'' && (a + b)[i] != ' ' by {
            if i < a.len() {
                assert((a + b)[i] == a[i]);
            } else {
                assert((a + b)[i] == b[i - a.len()]);
            }
        }
    }
}

// ---------------------------------------------------------------------------
// The document
// ---------------------------------------------------------------------------

pub open spec fn sitemap_head() -> Seq<char> {
    "<?xml version=\"1.0\" encoding=\"UTF-8\"?>"@
        + "<urlset xmlns=\"http://www.sitemaps.org/schemas/sitemap/0.9\">"@
}

pub open spec fn entry_xml(e: (Seq<char>, Option<Seq<char>>)) -> Seq<char> {
    "<url>"@ + "<loc>"@ + escape_xml(e.0) + "</loc>"@ + match e.1 {
        Some(l) => "<lastmod>"@ + l + "</lastmod>"@,
        None => Seq::<char>::empty(),
    } + "</url>"@
}

pub open spec fn entries_xml(es: Seq<(Seq<char>, Option<Seq<char>>)>) -> Seq<char>
    decreases es.len(),
{
    if es.len() == 0 {
        Seq::empty()
    } else {
        entries_xml(es.drop_last()) + entry_xml(es.last())
    }
}

/// The sitemap document for a list of entries.
pub open spec fn sitemap_xml(es: Seq<(Seq<char>, Option<Seq<char>>)>) -> Seq<char> {
    sitemap_head() + entries_xml(es) + "</urlset>"@
}

pub open spec fn entry_views(es: Seq<UrlEntry>) -> Seq<(Seq<char>, Option<Seq<char>>)> {
    es.map_values(|e: UrlEntry| e@)
}

fn entry_text(e: &UrlEntry) -> (res: String)
    ensures
        res@ == entry_xml(e@),
{
    let mut out = String::new();
    out.append("<url>");
    out.append("<loc>");
    let esc = xml_escape(e.loc.as_str());
    out.append(esc.as_str());
    out.append("</loc>");
    match &e.lastmod {
        Some(last) => {
            out.append("<lastmod>");
            out.append(last.as_str());
            out.append("</lastmod>");
        },
        None => {},
    }
    out.append("</url>");
    assert(out@ =~= entry_xml(e@));
    out
}

/// Writes the sitemap XML for the entries, in order.
pub fn render_sitemap(entries: Vec<UrlEntry>) -> (res: String)
    ensures
        res@ == sitemap_xml(entry_views(entries@)),
{
    let mut out = String::new();
    out.append("<?xml version=\"1.0\" encoding=\"UTF-8\"?>");
    out.append("<urlset xmlns=\"http://www.sitemaps.org/schemas/sitemap/0.9\">");
    let ghost es = entry_views(entries@);
    for i in 0..entries.len()
        invariant
            es == entry_views(entries@),
            out@ == sitemap_head() + entries_xml(es.take(i as int)),
    {
        let e = &entries[i];
        assert(es.take(i + 1).drop_last() =~= es.take(i as int));
        assert(es.take(i + 1).last() == e@);
        let piece = entry_text(e);
        let ghost before = out@;
        out.append(piece.as_str());
        assert(entries_xml(es.take(i + 1)) == entries_xml(es.take(i as int)) + entry_xml(e@));
        assert(out@ =~= sitemap_head() + entries_xml(es.take(i + 1)));
    }
    assert(es.take(entries.len() as int) =~= es);
    out.append("</urlset>");
    out
}

// ---------------------------------------------------------------------------
// Which addresses the sitemap lists
// ---------------------------------------------------------------------------

/// A writing appears on the site (parental mode hides nsfw writings).
pub open spec fn shown(w: Writing, parental: bool) -> bool {
    !(parental && w.meta.is_nsfw)
}

pub open spec fn on_calendar(d: DateTriple) -> bool {
    is_calendar_date(d.year as int, d.month as int, d.day as int)
}

/// The later of a running maximum and a date; on a tie the new date.
pub open spec fn later(p: Option<DateTriple>, d: DateTriple) -> Option<DateTriple> {
    match p {
        None => Some(d),
        Some(q) => if d.ordinal() >= q.ordinal() {
            Some(d)
        } else {
            Some(q)
        },
    }
}

/// The latest calendar date among the writings shown.
pub open spec fn latest_shown(ws: Seq<Writing>, parental: bool) -> Option<DateTriple>
    decreases ws.len(),
{
    if ws.len() == 0 {
        None
    } else {
        let p = latest_shown(ws.drop_last(), parental);
        let w = ws.last();
        if shown(w, parental) && on_calendar(w.meta.date_authored) {
            later(p, w.meta.date_authored)
        } else {
            p
        }
    }
}

/// The latest calendar date among the writings shown, not hidden and
/// carrying exactly the tag `t`.
pub open spec fn latest_tagged(ws: Seq<Writing>, parental: bool, t: Seq<char>) -> Option<DateTriple>
    decreases ws.len(),
{
    if ws.len() == 0 {
        None
    } else {
        let p = latest_tagged(ws.drop_last(), parental, t);
        let w = ws.last();
        if shown(w, parental) && !w.meta.is_hidden && w.meta.tags.deep_view().contains(t)
            && on_calendar(w.meta.date_authored) {
            later(p, w.meta.date_authored)
        } else {
            p
        }
    }
}

/// The first writing shown whose date is not on the calendar.
pub open spec fn first_bad_date(ws: Seq<Writing>, parental: bool) -> Option<DateTriple>
    decreases ws.len(),
{
    if ws.len() == 0 {
        None
    } else {
        let p = first_bad_date(ws.drop_last(), parental);
        let w = ws.last();
        if p is Some {
            p
        } else if shown(w, parental) && !on_calendar(w.meta.date_authored) {
            Some(w.meta.date_authored)
        } else {
            None
        }
    }
}

pub open spec fn page_entries(root: Seq<char>, site: Option<Seq<char>>) -> Seq<
    (Seq<char>, Option<Seq<char>>),
> {
    seq![
        (root + "/"@, site),
        (root + "/search"@, site),
        (root + "/list"@, site),
        (root + "/tags"@, site),
    ]
}

pub open spec fn tag_url_entries(
    root: Seq<char>,
    ws: Seq<Writing>,
    parental: bool,
    tags: Seq<Seq<char>>,
) -> Seq<(Seq<char>, Option<Seq<char>>)> {
    Seq::new(
        tags.len(),
        |i: int| (root + tag_path() + tags[i], lastmod_text(latest_tagged(ws, parental, tags[i]))),
    )
}

pub open spec fn writing_url_entries(root: Seq<char>, ws: Seq<Writing>, parental: bool) -> Seq<
    (Seq<char>, Option<Seq<char>>),
>
    decreases ws.len(),
{
    if ws.len() == 0 {
        Seq::empty()
    } else {
        let p = writing_url_entries(root, ws.drop_last(), parental);
        let w = ws.last();
        if shown(w, parental) {
            p.push(
                (
                    root + writing_path() + path_slug(w.meta.rel_path@),
                    Some(rfc3339_midnight_text(w.meta.date_authored)),
                ),
            )
        } else {
            p
        }
    }
}

/// The sitemap's entries: the four pages (last changed with the newest
/// writing shown), one per tag (last changed with the newest visible
/// writing carrying it), and one per writing shown (at its date).
pub open spec fn sitemap_entries_spec(
    root: Seq<char>,
    ws: Seq<Writing>,
    parental: bool,
    tags: Seq<Seq<char>>,
) -> Seq<(Seq<char>, Option<Seq<char>>)> {
    page_entries(root, lastmod_text(latest_shown(ws, parental))) + tag_url_entries(
        root,
        ws,
        parental,
        tags,
    ) + writing_url_entries(root, ws, parental)
}

fn concat2(a: &str, b: &str) -> (res: String)
    ensures
        res@ == a@ + b@,
{
    let mut s = String::from_str(a);
    s.append(b);
    s
}

fn latest_shown_exec(ws: &Vec<Writing>, parental: bool) -> (res: Option<RealDateTime>)
    ensures
        match res {
            Some(r) => latest_shown(ws@, parental) == Some(r@.date) && r@ == midnight(r@.date),
            None => latest_shown(ws@, parental) is None,
        },
{
    let mut best: Option<RealDateTime> = None;
    for k in 0..ws.len()
        invariant
            match best {
                Some(r) => latest_shown(ws@.take(k as int), parental) == Some(r@.date) && r@ == midnight(r@.date),
                None => latest_shown(ws@.take(k as int), parental) is None,
            },
    {
        assert(ws@.take(k + 1).drop_last() =~= ws@.take(k as int));
        assert(ws@.take(k + 1).last() == ws@[k as int]);
        let w = &ws[k];
        if !(parental && w.meta.is_nsfw) {
            match w.meta.date_authored.into_real_datetime() {
                Ok(r) => {
                    match best {
                        Some(b) => {
                            let rd = r.date();
                            let bd = b.date();
                            if !rd.is_before(&bd) {
                                best = Some(r);
                            }
                        },
                        None => {
                            best = Some(r);
                        },
                    }
                },
                Err(_) => {},
            }
        }
    }
    assert(ws@.take(ws.len() as int) =~= ws@);
    best
}

fn latest_tagged_exec(ws: &Vec<Writing>, parental: bool, t: &String) -> (res: Option<RealDateTime>)
    ensures
        match res {
            Some(r) => latest_tagged(ws@, parental, t@) == Some(r@.date) && r@ == midnight(r@.date),
            None => latest_tagged(ws@, parental, t@) is None,
        },
{
    let mut best: Option<RealDateTime> = None;
    for k in 0..ws.len()
        invariant
            match best {
                Some(r) => latest_tagged(ws@.take(k as int), parental, t@) == Some(r@.date) && r@ == midnight(r@.date),
                None => latest_tagged(ws@.take(k as int), parental, t@) is None,
            },
    {
        assert(ws@.take(k + 1).drop_last() =~= ws@.take(k as int));
        assert(ws@.take(k + 1).last() == ws@[k as int]);
        let w = &ws[k];
        if !(parental && w.meta.is_nsfw) && !w.meta.is_hidden && contains_string(&w.meta.tags, t) {
            match w.meta.date_authored.into_real_datetime() {
                Ok(r) => {
                    match best {
                        Some(b) => {
                            let rd = r.date();
                            let bd = b.date();
                            if !rd.is_before(&bd) {
                                best = Some(r);
                            }
                        },
                        None => {
                            best = Some(r);
                        },
                    }
                },
                Err(_) => {},
            }
        }
    }
    assert(ws@.take(ws.len() as int) =~= ws@);
    best
}

proof fn lemma_first_bad_prefix(ws: Seq<Writing>, parental: bool, k: int)
    requires
        0 <= k <= ws.len(),
        first_bad_date(ws.take(k), parental) is Some,
    ensures
        first_bad_date(ws, parental) == first_bad_date(ws.take(k), parental),
    decreases ws.len() - k,
{
    if k < ws.len() {
        assert(ws.take(k + 1).drop_last() =~= ws.take(k));
        lemma_first_bad_prefix(ws, parental, k + 1);
    } else {
        assert(ws.take(k) =~= ws);
    }
}

/// Lists the sitemap's entries for the writings and the tags of the cache.
/// Fails with the first date of a writing shown that is not on the
/// calendar.
pub fn sitemap_entries(root: &str, parental: bool, writings: &Vec<Writing>, tags: &Vec<String>) -> (res:
    Result<Vec<UrlEntry>, Error>)
    ensures
        match first_bad_date(writings@, parental) {
            Some(d) => res matches Err(Error::ComponentRange(e)) && e@ == date_error_name(d),
            None => res matches Ok(v) && entry_views(v@) == sitemap_entries_spec(
                root@,
                writings@,
                parental,
                tags.deep_view(),
            ),
        },
{
    let site = latest_shown_exec(writings, parental);
    let mut entries: Vec<UrlEntry> = Vec::new();
    proof {
        reveal_strlit("/");
        reveal_strlit("/search");
        reveal_strlit("/list");
        reveal_strlit("/tags");
    }
    entries.push(UrlEntry::new(concat2(root, "/"), site));
    entries.push(UrlEntry::new(concat2(root, "/search"), site));
    entries.push(UrlEntry::new(concat2(root, "/list"), site));
    entries.push(UrlEntry::new(concat2(root, "/tags"), site));
    let ghost site_text = lastmod_text(latest_shown(writings@, parental));
    let ghost pages = page_entries(root@, site_text);
    assert(entry_views(entries@) =~= pages);
    let ghost tv = tags.deep_view();
    let ghost tag_part = tag_url_entries(root@, writings@, parental, tv);
    for i in 0..tags.len()
        invariant
            tv == tags.deep_view(),
            tag_part == tag_url_entries(root@, writings@, parental, tv),
            pages == page_entries(root@, lastmod_text(latest_shown(writings@, parental))),
            entry_views(entries@) == pages + tag_part.take(i as int),
    {
        let last = latest_tagged_exec(writings, parental, &tags[i]);
        let url = tag_url_for(root, tags[i].as_str());
        let ghost before = entries@;
        entries.push(UrlEntry::new(url, last));
        assert(entry_views(entries@) =~= entry_views(before).push(entries@.last()@));
        assert(tag_part.take(i + 1) =~= tag_part.take(i as int).push(tag_part[i as int]));
        assert(entry_views(entries@) =~= pages + tag_part.take(i + 1));
    }
    assert(tag_part.take(tags.len() as int) =~= tag_part);
    let ghost head = pages + tag_part;
    for k in 0..writings.len()
        invariant
            head == pages + tag_part,
            first_bad_date(writings@.take(k as int), parental) is None,
            entry_views(entries@) == head + writing_url_entries(
                root@,
                writings@.take(k as int),
                parental,
            ),
    {
        assert(writings@.take(k + 1).drop_last() =~= writings@.take(k as int));
        assert(writings@.take(k + 1).last() == writings@[k as int]);
        let w = &writings[k];
        if !(parental && w.meta.is_nsfw) {
            match w.meta.date_authored.into_real_datetime() {
                Ok(r) => {
                    let url = writing_url_for(root, &w.meta);
                    let ghost before = entries@;
                    entries.push(UrlEntry::new(url, Some(r)));
                    assert(entry_views(entries@) =~= entry_views(before).push(entries@.last()@));
                },
                Err(e) => {
                    proof {
                        lemma_first_bad_prefix(writings@, parental, k + 1);
                    }
                    return Err(e);
                },
            }
        }
    }
    assert(writings@.take(writings.len() as int) =~= writings@);
    Ok(entries)
}

} // verus!

verus! {

// ---------------------------------------------------------------------------
// Laws
// ---------------------------------------------------------------------------

/// The writings that are not nsfw, in order.
pub open spec fn without_nsfw(ws: Seq<Writing>) -> Seq<Writing>
    decreases ws.len(),
{
    if ws.len() == 0 {
        Seq::empty()
    } else {
        let r = without_nsfw(ws.drop_last());
        if ws.last().meta.is_nsfw {
            r
        } else {
            r.push(ws.last())
        }
    }
}

proof fn lemma_parental_parts(root: Seq<char>, ws: Seq<Writing>, t: Seq<char>)
    ensures
        latest_shown(ws, true) == latest_shown(without_nsfw(ws), false),
        latest_tagged(ws, true, t) == latest_tagged(without_nsfw(ws), false, t),
        first_bad_date(ws, true) == first_bad_date(without_nsfw(ws), false),
        writing_url_entries(root, ws, true) == writing_url_entries(root, without_nsfw(ws), false),
    decreases ws.len(),
{
    if ws.len() > 0 {
        lemma_parental_parts(root, ws.drop_last(), t);
        if !ws.last().meta.is_nsfw {
            let f = without_nsfw(ws);
            assert(f.drop_last() =~= without_nsfw(ws.drop_last()));
            assert(f.last() == ws.last());
        } else {
            assert(without_nsfw(ws) == without_nsfw(ws.drop_last()));
        }
    } else {
        assert(without_nsfw(ws) =~= Seq::<Writing>::empty());
    }
}

/// Parental mode keeps nsfw writings out of the sitemap: in parental mode
/// the sitemap of some writings is the ordinary sitemap of those among them
/// that are not nsfw, and it fails on the same dates.
pub proof fn lemma_parental_sitemap(root: Seq<char>, ws: Seq<Writing>, tags: Seq<Seq<char>>)
    ensures
        sitemap_entries_spec(root, ws, true, tags) == sitemap_entries_spec(
            root,
            without_nsfw(ws),
            false,
            tags,
        ),
        first_bad_date(ws, true) == first_bad_date(without_nsfw(ws), false),
{
    lemma_parental_parts(root, ws, Seq::empty());
    assert forall|i: int| 0 <= i < tags.len() implies latest_tagged(ws, true, #[trigger] tags[i])
        == latest_tagged(without_nsfw(ws), false, tags[i]) by {
        lemma_parental_parts(root, ws, tags[i]);
    }
    assert(tag_url_entries(root, ws, true, tags) =~= tag_url_entries(
        root,
        without_nsfw(ws),
        false,
        tags,
    ));
}

/// Number of writings that a sitemap shows.
pub open spec fn shown_count(ws: Seq<Writing>, parental: bool) -> nat
    decreases ws.len(),
{
    if ws.len() == 0 {
        0
    } else {
        shown_count(ws.drop_last(), parental) + if shown(ws.last(), parental) {
            1nat
        } else {
            0nat
        }
    }
}

proof fn lemma_writing_entries_len(root: Seq<char>, ws: Seq<Writing>, parental: bool)
    ensures
        writing_url_entries(root, ws, parental).len() == shown_count(ws, parental),
    decreases ws.len(),
{
    if ws.len() > 0 {
        lemma_writing_entries_len(root, ws.drop_last(), parental);
    }
}

/// The sitemap lists the four pages, every tag once and every writing shown
/// once.
pub proof fn lemma_sitemap_size(root: Seq<char>, ws: Seq<Writing>, parental: bool, tags: Seq<Seq<char>>)
    ensures
        sitemap_entries_spec(root, ws, parental, tags).len() == 4 + tags.len() + shown_count(
            ws,
            parental,
        ),
{
    lemma_writing_entries_len(root, ws, parental);
}


/// A writing that dates the page of tag `t`: it carries `t`, is not hidden,
/// is not nsfw in parental mode, and its date is a day of the calendar.
pub open spec fn dates_tag(w: Writing, parental: bool, t: Seq<char>) -> bool {
    &&& !w.meta.is_hidden
    &&& !(parental && w.meta.is_nsfw)
    &&& w.meta.tags.deep_view().contains(t)
    &&& is_calendar_date(
        w.meta.date_authored.year as int,
        w.meta.date_authored.month as int,
        w.meta.date_authored.day as int,
    )
}

proof fn lemma_latest_tagged_is_latest(ws: Seq<Writing>, parental: bool, t: Seq<char>)
    ensures
        latest_tagged(ws, parental, t) is None <==> !exists|i: int|
            0 <= i < ws.len() && #[trigger] dates_tag(ws[i], parental, t),
        latest_tagged(ws, parental, t) matches Some(d) ==> exists|i: int|
            0 <= i < ws.len() && #[trigger] dates_tag(ws[i], parental, t)
                && ws[i].meta.date_authored == d,
        latest_tagged(ws, parental, t) matches Some(d) ==> forall|j: int|
            0 <= j < ws.len() && #[trigger] dates_tag(ws[j], parental, t)
                ==> ws[j].meta.date_authored.ordinal() <= d.ordinal(),
    decreases ws.len(),
{
    if ws.len() > 0 {
        let ps = ws.drop_last();
        lemma_latest_tagged_is_latest(ps, parental, t);
        assert forall|i: int| 0 <= i < ps.len() implies ps[i] == ws[i] by {}
        let n = ws.len() - 1;
        assert(ws[n] == ws.last());
        if exists|i: int| 0 <= i < ps.len() && #[trigger] dates_tag(ps[i], parental, t) {
            let i = choose|i: int| 0 <= i < ps.len() && #[trigger] dates_tag(ps[i], parental, t);
            assert(dates_tag(ws[i], parental, t));
        }
        if exists|i: int| 0 <= i < ws.len() && #[trigger] dates_tag(ws[i], parental, t) {
            let i = choose|i: int| 0 <= i < ws.len() && #[trigger] dates_tag(ws[i], parental, t);
            if i < n {
                assert(dates_tag(ps[i], parental, t));
            }
        }
        let w = ws.last();
        let cond = shown(w, parental) && !w.meta.is_hidden && w.meta.tags.deep_view().contains(t)
            && on_calendar(w.meta.date_authored);
        assert(cond == dates_tag(ws[n], parental, t));
        if cond {
            assert(dates_tag(ws[n], parental, t));
        } else {
            assert(latest_tagged(ws, parental, t) == latest_tagged(ps, parental, t));
        }
        match latest_tagged(ws, parental, t) {
            Some(d) => {
                if cond && d == w.meta.date_authored {
                    assert(dates_tag(ws[n], parental, t) && ws[n].meta.date_authored == d);
                }
                match latest_tagged(ps, parental, t) {
                    Some(q) => {
                        let i = choose|i: int|
                            0 <= i < ps.len() && #[trigger] dates_tag(ps[i], parental, t)
                                && ps[i].meta.date_authored == q;
                        assert(dates_tag(ws[i], parental, t));
                    },
                    None => {},
                }
                assert forall|j: int|
                    0 <= j < ws.len() && #[trigger] dates_tag(
                        ws[j],
                        parental,
                        t,
                    ) implies ws[j].meta.date_authored.ordinal() <= d.ordinal() by {
                    if j < n {
                        assert(dates_tag(ps[j], parental, t));
                    }
                }
            },
            None => {},
        }
    }
}

/// The page of a tag is listed in the sitemap at `<root>/tag/<tag>`, last
/// modified at the latest calendar date among the writings that carry the
/// tag and are neither hidden nor, in parental mode, nsfw (outside parental
/// mode nsfw writings count); it has no date when no writing dates it.
pub proof fn lemma_tag_entry_lastmod(
    root: Seq<char>,
    ws: Seq<Writing>,
    parental: bool,
    tags: Seq<Seq<char>>,
    k: int,
)
    requires
        0 <= k < tags.len(),
    ensures
        4 + k < sitemap_entries_spec(root, ws, parental, tags).len(),
        sitemap_entries_spec(root, ws, parental, tags)[4 + k].0 == root + tag_path() + tags[k],
        sitemap_entries_spec(root, ws, parental, tags)[4 + k].1 is None <==> !exists|i: int|
            0 <= i < ws.len() && #[trigger] dates_tag(ws[i], parental, tags[k]),
        sitemap_entries_spec(root, ws, parental, tags)[4 + k].1 is Some ==> exists|i: int|
            0 <= i < ws.len() && #[trigger] dates_tag(ws[i], parental, tags[k])
                && sitemap_entries_spec(root, ws, parental, tags)[4 + k].1 == Some(
                rfc3339_midnight_text(ws[i].meta.date_authored),
            ) && (forall|j: int|
                0 <= j < ws.len() && #[trigger] dates_tag(ws[j], parental, tags[k])
                    ==> ws[j].meta.date_authored.ordinal() <= ws[i].meta.date_authored.ordinal()),
{
    lemma_latest_tagged_is_latest(ws, parental, tags[k]);
    let es = sitemap_entries_spec(root, ws, parental, tags);
    let pe = page_entries(root, lastmod_text(latest_shown(ws, parental)));
    let te = tag_url_entries(root, ws, parental, tags);
    assert(pe.len() == 4);
    assert(es[4 + k] == te[k]);
}


/// A writing that dates the site's pages: not nsfw in parental mode, with a
/// date that is a day of the calendar.
pub open spec fn dates_site(w: Writing, parental: bool) -> bool {
    &&& !(parental && w.meta.is_nsfw)
    &&& is_calendar_date(
        w.meta.date_authored.year as int,
        w.meta.date_authored.month as int,
        w.meta.date_authored.day as int,
    )
}

proof fn lemma_latest_shown_is_latest(ws: Seq<Writing>, parental: bool)
    ensures
        latest_shown(ws, parental) is None <==> !exists|i: int|
            0 <= i < ws.len() && #[trigger] dates_site(ws[i], parental),
        latest_shown(ws, parental) matches Some(d) ==> exists|i: int|
            0 <= i < ws.len() && #[trigger] dates_site(ws[i], parental) && ws[i].meta.date_authored
                == d,
        latest_shown(ws, parental) matches Some(d) ==> forall|j: int|
            0 <= j < ws.len() && #[trigger] dates_site(ws[j], parental)
                ==> ws[j].meta.date_authored.ordinal() <= d.ordinal(),
    decreases ws.len(),
{
    if ws.len() > 0 {
        let ps = ws.drop_last();
        lemma_latest_shown_is_latest(ps, parental);
        assert forall|i: int| 0 <= i < ps.len() implies ps[i] == ws[i] by {}
        let n = ws.len() - 1;
        assert(ws[n] == ws.last());
        if exists|i: int| 0 <= i < ps.len() && #[trigger] dates_site(ps[i], parental) {
            let i = choose|i: int| 0 <= i < ps.len() && #[trigger] dates_site(ps[i], parental);
            assert(dates_site(ws[i], parental));
        }
        if exists|i: int| 0 <= i < ws.len() && #[trigger] dates_site(ws[i], parental) {
            let i = choose|i: int| 0 <= i < ws.len() && #[trigger] dates_site(ws[i], parental);
            if i < n {
                assert(dates_site(ps[i], parental));
            }
        }
        let w = ws.last();
        let cond = shown(w, parental) && on_calendar(w.meta.date_authored);
        assert(cond == dates_site(ws[n], parental));
        if cond {
            assert(dates_site(ws[n], parental));
        } else {
            assert(latest_shown(ws, parental) == latest_shown(ps, parental));
        }
        match latest_shown(ws, parental) {
            Some(d) => {
                if cond && d == w.meta.date_authored {
                    assert(dates_site(ws[n], parental) && ws[n].meta.date_authored == d);
                }
                match latest_shown(ps, parental) {
                    Some(q) => {
                        let i = choose|i: int|
                            0 <= i < ps.len() && #[trigger] dates_site(ps[i], parental)
                                && ps[i].meta.date_authored == q;
                        assert(dates_site(ws[i], parental));
                    },
                    None => {},
                }
                assert forall|j: int|
                    0 <= j < ws.len() && #[trigger] dates_site(
                        ws[j],
                        parental,
                    ) implies ws[j].meta.date_authored.ordinal() <= d.ordinal() by {
                    if j < n {
                        assert(dates_site(ps[j], parental));
                    }
                }
            },
            None => {},
        }
    }
}

/// The sitemap starts with the home, search, list and tags pages, all last
/// modified at the latest calendar date among the writings shown (in
/// parental mode not the nsfw ones, hidden ones included), and without a
/// date when there is none.
pub proof fn lemma_page_entries_lastmod(
    root: Seq<char>,
    ws: Seq<Writing>,
    parental: bool,
    tags: Seq<Seq<char>>,
)
    ensures
        4 <= sitemap_entries_spec(root, ws, parental, tags).len(),
        sitemap_entries_spec(root, ws, parental, tags)[0].0 == root + "/"@,
        sitemap_entries_spec(root, ws, parental, tags)[1].0 == root + "/search"@,
        sitemap_entries_spec(root, ws, parental, tags)[2].0 == root + "/list"@,
        sitemap_entries_spec(root, ws, parental, tags)[3].0 == root + "/tags"@,
        forall|p: int|
            0 <= p < 4 ==> (#[trigger] sitemap_entries_spec(root, ws, parental, tags)[p]).1
                == sitemap_entries_spec(root, ws, parental, tags)[0].1,
        sitemap_entries_spec(root, ws, parental, tags)[0].1 is None <==> !exists|i: int|
            0 <= i < ws.len() && #[trigger] dates_site(ws[i], parental),
        sitemap_entries_spec(root, ws, parental, tags)[0].1 is Some ==> exists|i: int|
            0 <= i < ws.len() && #[trigger] dates_site(ws[i], parental) && sitemap_entries_spec(
                root,
                ws,
                parental,
                tags,
            )[0].1 == Some(rfc3339_midnight_text(ws[i].meta.date_authored)) && (forall|j: int|
                0 <= j < ws.len() && #[trigger] dates_site(ws[j], parental)
                    ==> ws[j].meta.date_authored.ordinal() <= ws[i].meta.date_authored.ordinal()),
{
    lemma_latest_shown_is_latest(ws, parental);
    let es = sitemap_entries_spec(root, ws, parental, tags);
    let pe = page_entries(root, lastmod_text(latest_shown(ws, parental)));
    assert(pe.len() == 4);
    assert forall|p: int| 0 <= p < 4 implies es[p] == pe[p] by {}
}

proof fn lemma_writing_entries_follow(root: Seq<char>, ws: Seq<Writing>, parental: bool)
    ensures
        writing_url_entries(root, ws, parental).len() == ws.filter(
            |w: Writing| !(parental && w.meta.is_nsfw),
        ).len(),
        forall|j: int|
            0 <= j < writing_url_entries(root, ws, parental).len() ==> #[trigger] writing_url_entries(
                root,
                ws,
                parental,
            )[j] == (root + writing_path() + path_slug(
                ws.filter(|w: Writing| !(parental && w.meta.is_nsfw))[j].meta.rel_path@,
            ), Some(
                rfc3339_midnight_text(
                    ws.filter(|w: Writing| !(parental && w.meta.is_nsfw))[j].meta.date_authored,
                ),
            )),
    decreases ws.len(),
{
    reveal(Seq::filter);
    if ws.len() > 0 {
        lemma_writing_entries_follow(root, ws.drop_last(), parental);
    }
}

/// After the pages and the tags, the sitemap lists every writing shown (in
/// parental mode not the nsfw ones, hidden ones included), in order, each
/// at `<root>/writing/<slug of its path>` and last modified at midnight UTC
/// of its own date.
pub proof fn lemma_writing_entries(
    root: Seq<char>,
    ws: Seq<Writing>,
    parental: bool,
    tags: Seq<Seq<char>>,
)
    ensures
        sitemap_entries_spec(root, ws, parental, tags).len() == 4 + tags.len() + ws.filter(
            |w: Writing| !(parental && w.meta.is_nsfw),
        ).len(),
        forall|j: int|
            0 <= j < ws.filter(|w: Writing| !(parental && w.meta.is_nsfw)).len()
                ==> #[trigger] sitemap_entries_spec(root, ws, parental, tags)[4 + tags.len() + j]
                == (root + writing_path() + path_slug(
                ws.filter(|w: Writing| !(parental && w.meta.is_nsfw))[j].meta.rel_path@,
            ), Some(
                rfc3339_midnight_text(
                    ws.filter(|w: Writing| !(parental && w.meta.is_nsfw))[j].meta.date_authored,
                ),
            )),
{
    lemma_writing_entries_follow(root, ws, parental);
    let es = sitemap_entries_spec(root, ws, parental, tags);
    let pe = page_entries(root, lastmod_text(latest_shown(ws, parental)));
    let te = tag_url_entries(root, ws, parental, tags);
    let we = writing_url_entries(root, ws, parental);
    assert(pe.len() == 4);
    assert forall|j: int| 0 <= j < we.len() implies #[trigger] es[4 + tags.len() + j] == we[j] by {
        assert(es == pe + te + we);
    }
}

} // verus!
