//! Slugs of file paths and the addresses of pages.

use vstd::prelude::*;
use vstd::string::StringExecFns;

use crate::fossil::WritingMeta;
use crate::text::{chars_of, join, push_str_chars, split_chars, split_on, string_of};

verus! {

// ---------------------------------------------------------------------------
// Slugs
// ---------------------------------------------------------------------------

/// The slug that `slug::slugify` makes of a text (ASCII letters lowercased,
/// other characters transliterated, runs of anything else turned into `-`).
pub uninterp spec fn slugified(s: Seq<char>) -> Seq<char>;

/// Only `a`-`z`, `0`-`9` and `-`; no `-` first, last or twice in a row.
pub open spec fn is_slug(s: Seq<char>) -> bool {
    &&& forall|i: int|
        0 <= i < s.len() ==> ('a' <= #[trigger] s[i] <= 'z' || '0' <= s[i] <= '9' || s[i] == '-')
    &&& forall|i: int| 0 <= i < s.len() && #[trigger] s[i] == '-' ==> 0 < i < s.len() - 1 && s[i + 1] != '-'
}

/// Calls `slug::slugify`. Claimed: the result is `slugified` of the text,
/// and, as the crate documents and its code does, it holds only `a`-`z`,
/// `0`-`9` and `-`, never two `-` in a row, and neither starts nor ends
/// with `-`.
#[verifier::external_body]
fn slugify(s: &str) -> (res: String)
    ensures
        res@ == slugified(s@),
        is_slug(res@),
{
    slug::slugify(s)
}

// ---------------------------------------------------------------------------
// Paths
// ---------------------------------------------------------------------------

/// A component of a `/`-separated path, as `std::path::Path::components`
/// yields them.
pub enum Component {
    RootDir,
    CurDir,
    ParentDir,
    Normal(Seq<char>),
}

/// What a piece between separators contributes: nothing for an empty piece
/// or `.`, a parent for `..`, a name otherwise.
pub open spec fn classify(p: Seq<char>) -> Option<Component> {
    if p.len() == 0 || p == seq!['.'] {
        None
    } else if p == seq!['.', '.'] {
        Some(Component::ParentDir)
    } else {
        Some(Component::Normal(p))
    }
}

pub open spec fn piece_components(ps: Seq<Seq<char>>) -> Seq<Component>
    decreases ps.len(),
{
    if ps.len() == 0 {
        Seq::empty()
    } else {
        let r = piece_components(ps.drop_last());
        match classify(ps.last()) {
            Some(c) => r.push(c),
            None => r,
        }
    }
}

/// The leading component: the root for an absolute path, `.` for a path
/// that starts with a `.` piece.
pub open spec fn leading_component(s: Seq<char>) -> Seq<Component> {
    if s.len() > 0 && s[0] == '/' {
        seq![Component::RootDir]
    } else if s.len() > 0 && s[0] == '.' && (s.len() == 1 || s[1] == '/') {
        seq![Component::CurDir]
    } else {
        Seq::empty()
    }
}

pub open spec fn path_components(s: Seq<char>) -> Seq<Component> {
    leading_component(s) + piece_components(split_on(s, '/'))
}

/// The name has the extension `md` in any letter case.
pub open spec fn has_md_extension(s: Seq<char>) -> bool {
    &&& s.len() >= 4
    &&& s[s.len() - 3] == '.'
    &&& (s[s.len() - 2] == 'm' || s[s.len() - 2] == 'M')
    &&& (s[s.len() - 1] == 'd' || s[s.len() - 1] == 'D')
}

pub open spec fn ends_with_dot_md(s: Seq<char>) -> bool {
    s.len() >= 3 && s[s.len() - 3] == '.' && s[s.len() - 2] == 'm' && s[s.len() - 1] == 'd'
}

/// `s` with every trailing `.md` (lowercase) removed.
pub open spec fn trim_md(s: Seq<char>) -> Seq<char>
    decreases s.len(),
{
    if ends_with_dot_md(s) {
        trim_md(s.subrange(0, s.len() - 3))
    } else {
        s
    }
}

/// The part of a file name that its slug is made of.
pub open spec fn stem(s: Seq<char>) -> Seq<char> {
    if has_md_extension(s) {
        trim_md(s)
    } else {
        s
    }
}

/// The slugs of the named components, joined by `/`; a `/` goes before a
/// name that is not the first component.
pub open spec fn render_components(cs: Seq<Component>) -> Seq<char>
    decreases cs.len(),
{
    if cs.len() == 0 {
        Seq::empty()
    } else {
        let r = render_components(cs.drop_last());
        match cs.last() {
            Component::Normal(p) => r + (if cs.len() > 1 {
                seq!['/']
            } else {
                Seq::<char>::empty()
            }) + slugified(stem(p)),
            _ => r,
        }
    }
}

/// The slug of a writing's path, as its URL shows it.
pub open spec fn path_slug(s: Seq<char>) -> Seq<char> {
    render_components(path_components(s))
}

fn stem_chars(p: &Vec<char>) -> (res: Vec<char>)
    ensures
        res@ == stem(p@),
{
    let n = p.len();
    let md = n >= 4 && p[n - 3] == '.' && (p[n - 2] == 'm' || p[n - 2] == 'M') && (p[n - 1] == 'd'
        || p[n - 1] == 'D');
    if !md {
        let mut out: Vec<char> = Vec::new();
        crate::text::push_chars(&mut out, p);
        return out;
    }
    let mut end = n;
    assert(p@.subrange(0, n as int) =~= p@);
    while end >= 3 && p[end - 3] == '.' && p[end - 2] == 'm' && p[end - 1] == 'd'
        invariant
            end <= n == p@.len(),
            trim_md(p@) == trim_md(p@.subrange(0, end as int)),
        decreases end,
    {
        assert(p@.subrange(0, end as int).subrange(0, end - 3) =~= p@.subrange(0, end - 3));
        end -= 3;
    }
    let mut out: Vec<char> = Vec::new();
    let mut i: usize = 0;
    while i < end
        invariant
            i <= end <= n == p@.len(),
            out@ == p@.subrange(0, i as int),
        decreases end - i,
    {
        out.push(p[i]);
        i += 1;
        assert(out@ =~= p@.subrange(0, i as int));
    }
    assert(p@.subrange(0, n as int) =~= p@);
    out
}

/// Only `a`-`z`, `0`-`9`, `-` and `/`.
pub open spec fn url_safe(s: Seq<char>) -> bool {
    forall|i: int|
        0 <= i < s.len() ==> ('a' <= #[trigger] s[i] <= 'z' || '0' <= s[i] <= '9' || s[i] == '-'
            || s[i] == '/')
}

/// The slug of a path: each named component slugified (a trailing `.md`
/// extension dropped first), joined by `/`.
pub fn slugify_path(path: &str) -> (res: String)
    ensures
        res@ == path_slug(path@),
        url_safe(res@),
{
    let cs = chars_of(path);
    let pieces = split_chars(&cs, '/');
    let ghost sp = split_on(cs@, '/');
    let ghost lead = leading_component(cs@);
    let mut seen: bool = if cs.len() > 0 && cs[0] == '/' {
        true
    } else if cs.len() > 0 && cs[0] == '.' && (cs.len() == 1 || cs[1] == '/') {
        true
    } else {
        false
    };
    let mut out: Vec<char> = Vec::new();
    assert(sp.take(0) =~= Seq::<Seq<char>>::empty());
    assert(lead + piece_components(sp.take(0)) =~= lead);
    proof {
        if lead.len() == 1 {
            assert(lead.drop_last() =~= Seq::<Component>::empty());
            assert(render_components(Seq::<Component>::empty()) =~= Seq::<char>::empty());
        }
        assert(render_components(lead) =~= Seq::<char>::empty());
    }
    for i in 0..pieces.len()
        invariant
            pieces.len() == sp.len(),
            forall|j: int| 0 <= j < pieces.len() ==> (#[trigger] pieces[j])@ == sp[j],
            seen == ((lead + piece_components(sp.take(i as int))).len() > 0),
            out@ == render_components(lead + piece_components(sp.take(i as int))),
            url_safe(out@),
    {
        let ghost before = lead + piece_components(sp.take(i as int));
        assert(sp.take(i + 1).drop_last() =~= sp.take(i as int));
        assert(sp.take(i + 1).last() == sp[i as int]);
        let p = &pieces[i];
        if p.len() == 0 || (p.len() == 1 && p[0] == '.') {
            assert(p@.len() == 0 || p@ =~= seq!['.']);
            assert(lead + piece_components(sp.take(i + 1)) == before);
        } else if p.len() == 2 && p[0] == '.' && p[1] == '.' {
            assert(p@ =~= seq!['.', '.']);
            assert(lead + piece_components(sp.take(i + 1)) =~= before.push(Component::ParentDir));
            assert(before.push(Component::ParentDir).drop_last() =~= before);
            seen = true;
        } else {
            assert(p@ != seq!['.']);
            assert(p@ != seq!['.', '.']);
            let ghost after = before.push(Component::Normal(p@));
            assert(lead + piece_components(sp.take(i + 1)) =~= after);
            assert(after.drop_last() =~= before);
            if seen {
                out.push('/');
            }
            seen = true;
            let st = stem_chars(p);
            let name = string_of(&st);
            let slug = slugify(name.as_str());
            let ghost mid = out@;
            push_str_chars(&mut out, slug.as_str());
            assert(out@ =~= render_components(after));
            assert forall|k: int| 0 <= k < out@.len() implies ('a' <= #[trigger] out@[k] <= 'z'
                || '0' <= out@[k] <= '9' || out@[k] == '-' || out@[k] == '/') by {
                if k >= mid.len() {
                    assert(out@[k] == slug@[k - mid.len()]);
                } else {
                    assert(out@[k] == mid[k]);
                }
            }
        }
    }
    assert(sp.take(pieces.len() as int) =~= sp);
    string_of(&out)
}

/// The last component of a path when it is a name (`Path::file_name`).
pub open spec fn file_name(s: Seq<char>) -> Option<Seq<char>> {
    let cs = path_components(s);
    if cs.len() > 0 {
        match cs.last() {
            Component::Normal(p) => Some(p),
            _ => None,
        }
    } else {
        None
    }
}

/// The file name of a path.
pub fn file_name_of(path: &str) -> (res: Option<Vec<char>>)
    ensures
        match file_name(path@) {
            Some(f) => res matches Some(v) && v@ == f,
            None => res is None,
        },
{
    let cs = chars_of(path);
    let pieces = split_chars(&cs, '/');
    let ghost sp = split_on(cs@, '/');
    let ghost lead = leading_component(cs@);
    // 0: no component yet, 1: the last one is not a name, 2: it is `last`
    let mut state: u8 = if cs.len() > 0 && cs[0] == '/' {
        1
    } else if cs.len() > 0 && cs[0] == '.' && (cs.len() == 1 || cs[1] == '/') {
        1
    } else {
        0
    };
    let mut last: usize = 0;
    assert(sp.take(0) =~= Seq::<Seq<char>>::empty());
    assert(lead + piece_components(sp.take(0)) =~= lead);
    for i in 0..pieces.len()
        invariant
            pieces.len() == sp.len(),
            forall|j: int| 0 <= j < pieces.len() ==> (#[trigger] pieces[j])@ == sp[j],
            state <= 2,
            state == 0 <==> (lead + piece_components(sp.take(i as int))).len() == 0,
            state == 1 ==> (lead + piece_components(sp.take(i as int))).len() > 0 && !((lead
                + piece_components(sp.take(i as int))).last() is Normal),
            state == 2 ==> last < i && (lead + piece_components(sp.take(i as int))).len() > 0 && (
            lead + piece_components(sp.take(i as int))).last() == Component::Normal(sp[last as int]),
    {
        let ghost before = lead + piece_components(sp.take(i as int));
        assert(sp.take(i + 1).drop_last() =~= sp.take(i as int));
        assert(sp.take(i + 1).last() == sp[i as int]);
        let p = &pieces[i];
        if p.len() == 0 || (p.len() == 1 && p[0] == '.') {
            assert(p@.len() == 0 || p@ =~= seq!['.']);
            assert(lead + piece_components(sp.take(i + 1)) == before);
        } else if p.len() == 2 && p[0] == '.' && p[1] == '.' {
            assert(p@ =~= seq!['.', '.']);
            assert(lead + piece_components(sp.take(i + 1)) =~= before.push(Component::ParentDir));
            state = 1;
        } else {
            assert(p@ != seq!['.']);
            assert(p@ != seq!['.', '.']);
            assert(lead + piece_components(sp.take(i + 1)) =~= before.push(Component::Normal(p@)));
            state = 2;
            last = i;
        }
    }
    assert(sp.take(pieces.len() as int) =~= sp);
    if state == 2 {
        let mut out: Vec<char> = Vec::new();
        crate::text::push_chars(&mut out, &pieces[last]);
        Some(out)
    } else {
        None
    }
}

/// Whether a file is a writing: its name has the extension `md`, in any
/// letter case.
pub fn is_markdown_file(path: &str) -> (res: bool)
    ensures
        res == match file_name(path@) {
            Some(f) => has_md_extension(f),
            None => false,
        },
{
    match file_name_of(path) {
        Some(f) => {
            let n = f.len();
            n >= 4 && f[n - 3] == '.' && (f[n - 2] == 'm' || f[n - 2] == 'M') && (f[n - 1] == 'd'
                || f[n - 1] == 'D')
        },
        None => false,
    }
}

// ---------------------------------------------------------------------------
// URLs
// ---------------------------------------------------------------------------

pub open spec fn tag_path() -> Seq<char> {
    seq!['/', 't', 'a', 'g', '/']
}

pub open spec fn writing_path() -> Seq<char> {
    seq!['/', 'w', 'r', 'i', 't', 'i', 'n', 'g', '/']
}

fn concat3(a: &str, b: &str, c: &str) -> (res: String)
    ensures
        res@ == a@ + b@ + c@,
{
    let mut s = String::from_str(a);
    s.append(b);
    s.append(c);
    s
}

/// The address of a tag's page under the site root.
pub fn tag_url_for(root: &str, name: &str) -> (res: String)
    ensures
        res@ == root@ + tag_path() + name@,
{
    proof {
        reveal_strlit("/tag/");
    }
    concat3(root, "/tag/", name)
}

/// The address of a writing under the site root.
pub fn writing_url_for(root: &str, writing: &WritingMeta) -> (res: String)
    ensures
        res@ == root@ + writing_path() + path_slug(writing.rel_path@),
{
    let slug = slugify_path(writing.rel_path.as_str());
    writing_url_from(root, slug.as_str())
}

/// The address of the writing with the given slug under the site root.
pub fn writing_url_from(root: &str, slugified: &str) -> (res: String)
    ensures
        res@ == root@ + writing_path() + slugified@,
{
    proof {
        reveal_strlit("/writing/");
    }
    concat3(root, "/writing/", slugified)
}


/// `.md` repeated: the character at each position of a run of `.md`s.
pub open spec fn md_run_char(k: int) -> char {
    if k % 3 == 0 {
        '.'
    } else if k % 3 == 1 {
        'm'
    } else {
        'd'
    }
}

proof fn lemma_trim_md_shape(s: Seq<char>)
    ensures
        trim_md(s).len() <= s.len(),
        s.take(trim_md(s).len() as int) == trim_md(s),
        (s.len() - trim_md(s).len()) % 3 == 0,
        forall|k: int|
            trim_md(s).len() <= k < s.len() ==> #[trigger] s[k] == md_run_char(k - trim_md(s).len()),
        !(trim_md(s).len() >= 3 && trim_md(s)[trim_md(s).len() - 3] == '.' && trim_md(s)[trim_md(
            s,
        ).len() - 2] == 'm' && trim_md(s)[trim_md(s).len() - 1] == 'd'),
    decreases s.len(),
{
    if ends_with_dot_md(s) {
        let p = s.subrange(0, s.len() - 3);
        lemma_trim_md_shape(p);
        let t = trim_md(p);
        assert(trim_md(s) == t);
        assert(s.take(t.len() as int) =~= p.take(t.len() as int));
        assert forall|k: int| t.len() <= k < s.len() implies #[trigger] s[k] == md_run_char(
            k - t.len(),
        ) by {
            if k < p.len() {
                assert(s[k] == p[k]);
            } else {
                assert((k - t.len()) % 3 == (k - p.len()) % 3) by {
                    assert((p.len() - t.len()) % 3 == 0);
                }
            }
        }
    } else {
        assert(s.take(s.len() as int) =~= s);
    }
}

/// The part of a file name that its slug is made of. A name with the
/// extension `md` (in any letter case) loses only the `.md`s at its end:
/// what is kept is a prefix of the name that does not end in `.md`, and
/// what is cut is a run of `.md`, so any other `.` stays (`x.y.md` gives
/// `x.y`). Any other name is kept whole.
pub proof fn lemma_stem_trims_only_md(s: Seq<char>)
    ensures
        !(s.len() >= 4 && s[s.len() - 3] == '.' && (s[s.len() - 2] == 'm' || s[s.len() - 2]
            == 'M') && (s[s.len() - 1] == 'd' || s[s.len() - 1] == 'D')) ==> stem(s) == s,
        stem(s).len() <= s.len(),
        s.take(stem(s).len() as int) == stem(s),
        (s.len() - stem(s).len()) % 3 == 0,
        forall|k: int|
            stem(s).len() <= k < s.len() ==> #[trigger] s[k] == md_run_char(k - stem(s).len()),
        s.len() >= 4 && s[s.len() - 3] == '.' && (s[s.len() - 2] == 'm' || s[s.len() - 2] == 'M')
            && (s[s.len() - 1] == 'd' || s[s.len() - 1] == 'D') ==> !(stem(s).len() >= 3
            && stem(s)[stem(s).len() - 3] == '.' && stem(s)[stem(s).len() - 2] == 'm'
            && stem(s)[stem(s).len() - 1] == 'd'),
{
    lemma_trim_md_shape(s);
    if !has_md_extension(s) {
        assert(s.take(s.len() as int) =~= s);
    }
}


/// A piece of a path that names a file or directory: not empty, not `.`
/// and not `..`.
pub open spec fn plain_name(p: Seq<char>) -> bool {
    p.len() > 0 && p != seq!['.'] && p != seq!['.', '.']
}

proof fn lemma_plain_pieces(ps: Seq<Seq<char>>)
    requires
        forall|k: int| 0 <= k < ps.len() ==> plain_name(#[trigger] ps[k]),
    ensures
        piece_components(ps) == ps.map_values(|p: Seq<char>| Component::Normal(p)),
    decreases ps.len(),
{
    if ps.len() > 0 {
        lemma_plain_pieces(ps.drop_last());
        assert(ps.last() == ps[ps.len() - 1]);
        assert(ps.map_values(|p: Seq<char>| Component::Normal(p)) =~= ps.drop_last().map_values(
            |p: Seq<char>| Component::Normal(p),
        ).push(Component::Normal(ps.last())));
    }
}

proof fn lemma_render_names(ps: Seq<Seq<char>>)
    ensures
        render_components(ps.map_values(|p: Seq<char>| Component::Normal(p))) == join(
            ps.map_values(|p: Seq<char>| slugified(stem(p))),
            seq!['/'],
        ),
    decreases ps.len(),
{
    let cs = ps.map_values(|p: Seq<char>| Component::Normal(p));
    let ss = ps.map_values(|p: Seq<char>| slugified(stem(p)));
    if ps.len() > 0 {
        lemma_render_names(ps.drop_last());
        assert(cs.drop_last() =~= ps.drop_last().map_values(|p: Seq<char>| Component::Normal(p)));
        assert(ss.drop_last() =~= ps.drop_last().map_values(|p: Seq<char>| slugified(stem(p))));
        assert(cs.last() == Component::Normal(ps.last()));
        if ps.len() == 1 {
            assert(render_components(cs.drop_last()) =~= Seq::<char>::empty());
            assert(render_components(cs) =~= slugified(stem(ps[0])));
        }
    }
}

proof fn lemma_join_starts_with_first(ps: Seq<Seq<char>>, sep: Seq<char>)
    requires
        ps.len() > 0,
    ensures
        ps[0].len() <= join(ps, sep).len(),
        join(ps, sep).take(ps[0].len() as int) == ps[0],
    decreases ps.len(),
{
    if ps.len() > 1 {
        lemma_join_starts_with_first(ps.drop_last(), sep);
        let j = join(ps.drop_last(), sep);
        assert(join(ps, sep) == j + sep + ps.last());
        if ps.len() == 2 {
            assert(j == ps[0]);
        }
        assert(join(ps, sep).take(ps[0].len() as int) =~= j.take(ps[0].len() as int));
    } else {
        assert(join(ps, sep) == ps[0]);
        assert(ps[0].take(ps[0].len() as int) =~= ps[0]);
    }
}

/// The slug of a relative path made of plain names (no empty piece, no `.`
/// or `..`) is the slugs of those names, each taken of the name without its
/// trailing `.md`s when it has the extension `md`, joined by `/`.
pub proof fn lemma_slug_of_plain_path(s: Seq<char>)
    requires
        forall|k: int|
            0 <= k < split_on(s, '/').len() ==> plain_name(#[trigger] split_on(s, '/')[k]),
    ensures
        path_slug(s) == join(
            split_on(s, '/').map_values(|p: Seq<char>| slugified(stem(p))),
            seq!['/'],
        ),
{
    let ps = split_on(s, '/');
    crate::text::lemma_split_on_join(s, '/');
    crate::text::lemma_split_on_nonempty(s, '/');
    lemma_join_starts_with_first(ps, seq!['/']);
    let p0 = ps[0];
    assert(plain_name(p0));
    assert(s[0] == p0[0]) by {
        assert(s.take(p0.len() as int)[0] == s[0]);
    }
    if s.len() > 0 && s[0] == '/' {
        assert(p0.contains('/'));
    }
    if s.len() > 0 && s[0] == '.' && (s.len() == 1 || s[1] == '/') {
        if p0.len() >= 2 {
            assert(s[1] == p0[1]) by {
                assert(s.take(p0.len() as int)[1] == s[1]);
            }
            assert(p0.contains('/'));
        } else {
            assert(p0 =~= seq!['.']);
        }
    }
    assert(leading_component(s) =~= Seq::<Component>::empty());
    lemma_plain_pieces(ps);
    lemma_render_names(ps);
    assert(path_components(s) =~= piece_components(ps));
}

} // verus!
