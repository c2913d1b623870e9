//! Writings as read from the content repository: front matter, metadata,
//! and the newest-first order of the listing.

use vstd::prelude::*;

use crate::date::{date_from_text, DateParseError, DateTriple};
use crate::text::chars_of;

verus! {

broadcast use vstd::std_specs::vec::vec_clone_deep_view_proof;

// ---------------------------------------------------------------------------
// Repository state
// ---------------------------------------------------------------------------

/// The commit that the content was last read from.
#[derive(Debug)]
pub struct CommitRef {
    pub shorthand: String,
    /// Seconds since the Unix epoch, UTC.
    pub commit_time_utc: u64,
}

impl CommitRef {
    /// Whether both name the same commit and time.
    pub fn same_as(&self, other: &CommitRef) -> (res: bool)
        ensures
            res == (self.shorthand@ == other.shorthand@ && self.commit_time_utc
                == other.commit_time_utc),
    {
        self.commit_time_utc == other.commit_time_utc && self.shorthand == other.shorthand
    }
}

impl Clone for CommitRef {
    fn clone(&self) -> (res: Self)
        ensures
            res.shorthand@ == self.shorthand@,
            res.commit_time_utc == self.commit_time_utc,
    {
        CommitRef { shorthand: self.shorthand.clone(), commit_time_utc: self.commit_time_utc }
    }
}

/// Where the content repository lives and which commit it was last read at.
pub struct RepoHandler {
    access_token: String,
    clone_path: String,
    latest_commit: CommitRef,
}

impl RepoHandler {
    pub fn new(access_token: String, clone_path: String, latest_commit: CommitRef) -> (res: Self)
        ensures
            res.access_token() == access_token@,
            res.clone_path() == clone_path@,
            res.latest() == latest_commit,
    {
        RepoHandler { access_token, clone_path, latest_commit }
    }

    pub closed spec fn latest(&self) -> CommitRef {
        self.latest_commit
    }

    /// The commit that the content was last read from.
    pub fn latest_commit(&self) -> (res: &CommitRef)
        ensures
            *res == self.latest(),
    {
        &self.latest_commit
    }

    /// Records the commit that the content now stands at.
    pub fn set_latest_commit(&mut self, commit: CommitRef)
        ensures
            final(self).latest() == commit,
            final(self).access_token() == old(self).access_token(),
            final(self).clone_path() == old(self).clone_path(),
    {
        self.latest_commit = commit;
    }

    pub closed spec fn access_token(&self) -> Seq<char> {
        self.access_token@
    }

    pub closed spec fn clone_path(&self) -> Seq<char> {
        self.clone_path@
    }

    /// The token that authenticates fetches.
    pub fn get_access_token(&self) -> (res: &str)
        ensures
            res@ == self.access_token(),
    {
        self.access_token.as_str()
    }

    /// The directory that the repository is cloned into.
    pub fn get_clone_path(&self) -> (res: &str)
        ensures
            res@ == self.clone_path(),
    {
        self.clone_path.as_str()
    }
}

// ---------------------------------------------------------------------------
// Writings
// ---------------------------------------------------------------------------

/// The YAML header of a writing, as read.
pub struct FrontMatter {
    pub title: String,
    pub date: String,
    pub tags: Option<Vec<String>>,
    pub nsfw: Option<bool>,
    pub hidden: Option<bool>,
    pub description: Option<String>,
    pub previous: Option<String>,
    pub next: Option<String>,
}

/// What is known of a writing apart from its text.
#[derive(Debug)]
pub struct WritingMeta {
    /// Path of the file relative to the repository root.
    pub rel_path: String,
    pub title: String,
    pub date_authored: DateTriple,
    pub tags: Vec<String>,
    pub description: Option<String>,
    pub is_nsfw: bool,
    pub is_hidden: bool,
    pub previous: Option<String>,
    pub next: Option<String>,
}

pub struct MetaView {
    pub rel_path: Seq<char>,
    pub title: Seq<char>,
    pub date_authored: DateTriple,
    pub tags: Seq<Seq<char>>,
    pub description: Option<Seq<char>>,
    pub is_nsfw: bool,
    pub is_hidden: bool,
    pub previous: Option<Seq<char>>,
    pub next: Option<Seq<char>>,
}

impl View for WritingMeta {
    type V = MetaView;

    open spec fn view(&self) -> MetaView {
        MetaView {
            rel_path: self.rel_path@,
            title: self.title@,
            date_authored: self.date_authored,
            tags: self.tags.deep_view(),
            description: self.description.deep_view(),
            is_nsfw: self.is_nsfw,
            is_hidden: self.is_hidden,
            previous: self.previous.deep_view(),
            next: self.next.deep_view(),
        }
    }
}

fn clone_opt_string(s: &Option<String>) -> (res: Option<String>)
    ensures
        res.deep_view() == s.deep_view(),
{
    match s {
        Some(x) => Some(x.clone()),
        None => None,
    }
}

impl Clone for WritingMeta {
    fn clone(&self) -> (res: Self)
        ensures
            res@ == self@,
    {
        let tags = self.tags.clone();
        assert(tags.deep_view() =~= self.tags.deep_view());
        WritingMeta {
            rel_path: self.rel_path.clone(),
            title: self.title.clone(),
            date_authored: self.date_authored,
            tags,
            description: clone_opt_string(&self.description),
            is_nsfw: self.is_nsfw,
            is_hidden: self.is_hidden,
            previous: clone_opt_string(&self.previous),
            next: clone_opt_string(&self.next),
        }
    }
}

/// A writing: its metadata and its full text (front matter included).
#[derive(Debug)]
pub struct Writing {
    pub meta: WritingMeta,
    pub content: String,
}

pub struct WritingView {
    pub meta: MetaView,
    pub content: Seq<char>,
}

impl View for Writing {
    type V = WritingView;

    open spec fn view(&self) -> WritingView {
        WritingView { meta: self.meta@, content: self.content@ }
    }
}

impl Clone for Writing {
    fn clone(&self) -> (res: Self)
        ensures
            res@ == self@,
    {
        Writing { meta: self.meta.clone(), content: self.content.clone() }
    }
}

// ---------------------------------------------------------------------------
// Front matter
// ---------------------------------------------------------------------------

/// A `---` rule starts at `i`.
pub open spec fn rule_at(s: Seq<char>, i: int) -> bool {
    0 <= i && i + 3 <= s.len() && s[i] == '-' && s[i + 1] == '-' && s[i + 2] == '-'
}

/// The first position at or after `i` where a `---` rule starts.
pub open spec fn first_rule_from(s: Seq<char>, i: int) -> Option<int>
    decreases s.len() - i,
{
    if i < 0 || i + 3 > s.len() {
        None
    } else if rule_at(s, i) {
        Some(i)
    } else {
        first_rule_from(s, i + 1)
    }
}

/// The header of a writing: the text between the opening `---` and the
/// next `---`; none when the text does not start with `---` or has no
/// closing rule.
pub open spec fn front_matter_text(s: Seq<char>) -> Option<Seq<char>> {
    if rule_at(s, 0) {
        match first_rule_from(s, 3) {
            Some(k) => Some(s.subrange(3, k)),
            None => None,
        }
    } else {
        None
    }
}

/// Cuts the front matter out of a writing's text.
pub fn front_matter_of(content: &str) -> (res: Option<Vec<char>>)
    ensures
        match front_matter_text(content@) {
            Some(t) => res matches Some(v) && v@ == t,
            None => res is None,
        },
{
    let cs = chars_of(content);
    let n = cs.len();
    if !(n >= 3 && cs[0] == '-' && cs[1] == '-' && cs[2] == '-') {
        return None;
    }
    let mut i: usize = 3;
    while i < n && n - i >= 3
        invariant
            3 <= i <= n,
            rule_at(cs@, 0),
            n == cs@.len(),
            cs@ == content@,
            first_rule_from(cs@, 3) == first_rule_from(cs@, i as int),
        decreases n - i,
    {
        if cs[i] == '-' && cs[i + 1] == '-' && cs[i + 2] == '-' {
            let mut out: Vec<char> = Vec::new();
            let mut j: usize = 3;
            while j < i
                invariant
                    3 <= j <= i,
                    i + 3 <= n,
                    n == cs@.len(),
                    out@ == cs@.subrange(3, j as int),
                decreases i - j,
            {
                out.push(cs[j]);
                j += 1;
                assert(out@ =~= cs@.subrange(3, j as int));
            }
            assert(rule_at(cs@, i as int));
            return Some(out);
        }
        i += 1;
    }
    None
}

/// What a writing's metadata becomes from its header: absent lists and
/// flags count as empty and false.
pub open spec fn meta_from(doc: FrontMatter, rel_path: Seq<char>, date: DateTriple) -> MetaView {
    MetaView {
        rel_path,
        title: doc.title@,
        date_authored: date,
        tags: match doc.tags {
            Some(t) => t.deep_view(),
            None => Seq::empty(),
        },
        description: doc.description.deep_view(),
        is_nsfw: doc.nsfw == Some(true),
        is_hidden: doc.hidden == Some(true),
        previous: doc.previous.deep_view(),
        next: doc.next.deep_view(),
    }
}

/// Builds a writing from its header, path and text. In parental mode a
/// writing marked nsfw is left out before anything else is read; otherwise
/// the header's date must parse.
pub fn writing_from_front_matter(
    doc: FrontMatter,
    rel_path: String,
    content: String,
    parental: bool,
) -> (res: Result<Option<Writing>, DateParseError>)
    ensures
        parental && doc.nsfw == Some(true) ==> res matches Ok(None),
        !(parental && doc.nsfw == Some(true)) ==> match date_from_text(doc.date@) {
            Err(e) => res == Err::<Option<Writing>, DateParseError>(e),
            Ok(d) => res matches Ok(Some(w)) && w@ == (WritingView {
                meta: meta_from(doc, rel_path@, d),
                content: content@,
            }),
        },
        res matches Ok(Some(w)) ==> w.meta.rel_path@ == rel_path@ && w.meta.title@ == doc.title@
            && w.meta.description.deep_view() == doc.description.deep_view()
            && w.meta.previous.deep_view() == doc.previous.deep_view()
            && w.meta.next.deep_view() == doc.next.deep_view() && w.content@ == content@,
{
    let nsfw = match doc.nsfw {
        Some(b) => b,
        None => false,
    };
    if parental && nsfw {
        return Ok(None);
    }
    let date = match DateTriple::from_str(doc.date.as_str()) {
        Ok(d) => d,
        Err(e) => {
            return Err(e);
        },
    };
    let ghost doc_view = meta_from(doc, rel_path@, date);
    let tags = match doc.tags {
        Some(t) => t,
        None => Vec::new(),
    };
    assert(tags.deep_view() =~= doc_view.tags);
    let hidden = match doc.hidden {
        Some(b) => b,
        None => false,
    };
    let meta = WritingMeta {
        rel_path,
        title: doc.title,
        date_authored: date,
        tags,
        description: doc.description,
        is_nsfw: nsfw,
        is_hidden: hidden,
        previous: doc.previous,
        next: doc.next,
    };
    Ok(Some(Writing { meta, content }))
}

// ---------------------------------------------------------------------------
// Ordering
// ---------------------------------------------------------------------------

pub open spec fn key(w: Writing) -> int {
    w.meta.date_authored.ordinal()
}

/// Where a writing with date key `k` goes in a newest-first list: before
/// the first writing that is not newer.
pub open spec fn insert_pos(s: Seq<Writing>, k: int, i: int) -> int
    decreases s.len() - i,
{
    if i < 0 || i >= s.len() {
        s.len() as int
    } else if key(s[i]) <= k {
        i
    } else {
        insert_pos(s, k, i + 1)
    }
}

/// Writings newest first; among writings of the same day, the one that
/// came later in the input comes first (a stable sort by date, reversed).
pub open spec fn newest_first(s: Seq<Writing>) -> Seq<Writing>
    decreases s.len(),
{
    if s.len() == 0 {
        Seq::empty()
    } else {
        let r = newest_first(s.drop_last());
        r.insert(insert_pos(r, key(s.last()), 0), s.last())
    }
}

pub open spec fn is_newest_first(s: Seq<Writing>) -> bool {
    forall|i: int, j: int| 0 <= i < j < s.len() ==> key(s[i]) >= key(s[j])
}

proof fn lemma_insert_pos_bounds(s: Seq<Writing>, k: int, i: int)
    requires
        0 <= i <= s.len(),
    ensures
        i <= insert_pos(s, k, i) <= s.len(),
        forall|j: int| i <= j < insert_pos(s, k, i) ==> key(#[trigger] s[j]) > k,
        insert_pos(s, k, i) < s.len() ==> key(s[insert_pos(s, k, i)]) <= k,
    decreases s.len() - i,
{
    if i < s.len() && key(s[i]) > k {
        lemma_insert_pos_bounds(s, k, i + 1);
    }
}

/// Sorting newest first puts every writing at or before the writings
/// that are older, and keeps every writing exactly once.
pub proof fn lemma_newest_first(s: Seq<Writing>)
    ensures
        is_newest_first(newest_first(s)),
        newest_first(s).to_multiset() == s.to_multiset(),
        newest_first(s).len() == s.len(),
    decreases s.len(),
{
    if s.len() > 0 {
        let r = newest_first(s.drop_last());
        lemma_newest_first(s.drop_last());
        let x = s.last();
        let p = insert_pos(r, key(x), 0);
        lemma_insert_pos_bounds(r, key(x), 0);
        let t = r.insert(p, x);
        assert forall|i: int, j: int| 0 <= i < j < t.len() implies key(t[i]) >= key(t[j]) by {
            if j < p {
            } else if j == p {
                assert(t[i] == r[i]);
            } else if i < p {
                assert(t[j] == r[j - 1]);
                assert(t[i] == r[i]);
                assert(key(r[p]) <= key(x));
                if j - 1 > p {
                    assert(key(r[p]) >= key(r[j - 1]));
                }
            } else if i == p {
                assert(t[j] == r[j - 1]);
                if j - 1 > p {
                    assert(key(r[p]) >= key(r[j - 1]));
                }
            } else {
                assert(t[i] == r[i - 1]);
                assert(t[j] == r[j - 1]);
            }
        }
        r.insert_ensures(p, x);
        vstd::seq_lib::lemma_seq_union_to_multiset_commutative(r, seq![x]);
        assert(s =~= s.drop_last().push(x));
        s.drop_last().to_multiset_ensures();
        r.to_multiset_ensures();
        lemma_multiset_insert(r, p, x);
        assert(t.to_multiset() == r.to_multiset().insert(x));
        assert(s.drop_last().push(x).to_multiset() =~= s.drop_last().to_multiset().insert(x));
    } else {
        assert(s =~= Seq::<Writing>::empty());
        assert(newest_first(s) =~= Seq::<Writing>::empty());
    }
}

proof fn lemma_multiset_insert(r: Seq<Writing>, p: int, x: Writing)
    requires
        0 <= p <= r.len(),
    ensures
        r.insert(p, x).to_multiset() == r.to_multiset().insert(x),
{
    let t = r.insert(p, x);
    assert(t =~= r.subrange(0, p) + seq![x] + r.subrange(p, r.len() as int));
    assert(r =~= r.subrange(0, p) + r.subrange(p, r.len() as int));
    vstd::seq_lib::lemma_multiset_commutative(r.subrange(0, p) + seq![x], r.subrange(p, r.len() as int));
    vstd::seq_lib::lemma_multiset_commutative(r.subrange(0, p), seq![x]);
    vstd::seq_lib::lemma_multiset_commutative(r.subrange(0, p), r.subrange(p, r.len() as int));
    assert(seq![x].to_multiset() =~= vstd::multiset::Multiset::empty().insert(x)) by {
        seq![x].to_multiset_ensures();
        Seq::<Writing>::empty().to_multiset_ensures();
        assert(seq![x] =~= Seq::<Writing>::empty().push(x));
    }
}

/// Orders writings newest first, as the listing shows them.
pub fn sort_newest_first(list: Vec<Writing>) -> (res: Vec<Writing>)
    ensures
        res@ == newest_first(list@),
        is_newest_first(res@),
        res@.to_multiset() == list@.to_multiset(),
{
    let ghost orig = list@;
    let mut rest = list;
    let mut out: Vec<Writing> = Vec::new();
    let n = rest.len();
    let mut k: usize = 0;
    assert(orig.take(0) =~= Seq::<Writing>::empty());
    assert(orig.skip(0) =~= orig);
    while k < n
        invariant
            k <= n,
            n == orig.len(),
            rest@ == orig.skip(k as int),
            out@ == newest_first(orig.take(k as int)),
        decreases n - k,
    {
        let x = rest.remove(0);
        assert(x == orig[k as int]);
        assert(orig.take(k + 1).drop_last() =~= orig.take(k as int));
        assert(orig.take(k + 1).last() == x);
        assert(rest@ =~= orig.skip(k + 1));
        let mut j: usize = 0;
        while j < out.len() && x.meta.date_authored.is_before(&out[j].meta.date_authored)
            invariant
                j <= out.len(),
                insert_pos(out@, key(x), 0) == insert_pos(out@, key(x), j as int),
            decreases out.len() - j,
        {
            j += 1;
        }
        out.insert(j, x);
        k += 1;
    }
    assert(orig.take(n as int) =~= orig);
    proof {
        lemma_newest_first(orig);
    }
    out
}


/// A writing built from its header keeps each header field in the field of
/// the same name: its path, title, date, tags (none for no list),
/// description and the `previous` and `next` links come from the header as
/// they are, and it is nsfw or hidden exactly when the header says `true`.
pub proof fn lemma_header_fields_kept(doc: FrontMatter, rel_path: Seq<char>, date: DateTriple)
    ensures
        meta_from(doc, rel_path, date).rel_path == rel_path,
        meta_from(doc, rel_path, date).title == doc.title@,
        meta_from(doc, rel_path, date).date_authored == date,
        doc.tags matches Some(t) ==> meta_from(doc, rel_path, date).tags == t.deep_view(),
        doc.tags is None ==> meta_from(doc, rel_path, date).tags.len() == 0,
        meta_from(doc, rel_path, date).description == doc.description.deep_view(),
        meta_from(doc, rel_path, date).is_nsfw == (doc.nsfw == Some(true)),
        meta_from(doc, rel_path, date).is_hidden == (doc.hidden == Some(true)),
        meta_from(doc, rel_path, date).previous == doc.previous.deep_view(),
        meta_from(doc, rel_path, date).next == doc.next.deep_view(),
{
}


proof fn lemma_first_rule_from(s: Seq<char>, i: int)
    requires
        0 <= i,
    ensures
        first_rule_from(s, i) matches Some(k) ==> i <= k && k + 3 <= s.len() && s[k] == '-' && s[k
            + 1] == '-' && s[k + 2] == '-' && forall|j: int|
            i <= j < k ==> !(s[j] == '-' && s[j + 1] == '-' && #[trigger] s[j + 2] == '-'),
        first_rule_from(s, i) is None ==> forall|j: int|
            i <= j && j + 3 <= s.len() ==> !(s[j] == '-' && s[j + 1] == '-' && #[trigger] s[j + 2]
                == '-'),
    decreases s.len() - i,
{
    if i + 3 <= s.len() && !rule_at(s, i) {
        lemma_first_rule_from(s, i + 1);
    }
}

/// The header of a writing is what lies between a `---` at the very start
/// and the next `---` after it: when there is one, the text is `---`, the
/// header, `---` and the rest, and the header holds no `---`; there is none
/// exactly when the text does not start with `---` or no `---` follows.
pub proof fn lemma_front_matter_bounds(s: Seq<char>)
    ensures
        front_matter_text(s) matches Some(h) ==> {
            &&& s.len() >= 6 + h.len()
            &&& s[0] == '-' && s[1] == '-' && s[2] == '-'
            &&& s.subrange(3, 3 + h.len() as int) == h
            &&& s[3 + h.len() as int] == '-' && s[4 + h.len() as int] == '-' && s[5 + h.len() as int] == '-'
            &&& forall|j: int|
                3 <= j < 3 + h.len() ==> !(s[j] == '-' && s[j + 1] == '-' && #[trigger] s[j + 2]
                    == '-')
        },
        front_matter_text(s) is None ==> !(s.len() >= 3 && s[0] == '-' && s[1] == '-' && s[2]
            == '-') || forall|j: int|
            3 <= j && j + 3 <= s.len() ==> !(s[j] == '-' && s[j + 1] == '-' && #[trigger] s[j + 2]
                == '-'),
{
    lemma_first_rule_from(s, 3);
}

} // verus!
