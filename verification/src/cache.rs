//! The cached writings: their tag set, lookup by slug, and tag pages.

use vstd::prelude::*;
use vstd::string::StringExecFns;

use crate::err::Error;
use crate::fossil::{MetaView, Writing, WritingMeta};
use crate::paths::{path_slug, slugify_path};
use crate::tags::{count_of, nsfw_name, sfw_name, TagCount};
use crate::text::{contains_string, lowercase, to_lowercase};

verus! {

/// The writings as last read, with the set of their tags in lowercase.
pub struct WritingCache {
    pub writings: Vec<Writing>,
    pub tags: Vec<String>,
}

pub open spec fn strings_distinct(s: Seq<Seq<char>>) -> bool {
    forall|i: int, j: int| 0 <= i < j < s.len() ==> s[i] != s[j]
}

/// Some writing carries a tag whose lowercase form is `t`.
pub open spec fn has_lowercase_tag(ws: Seq<Writing>, t: Seq<char>) -> bool {
    exists|i: int, j: int|
        0 <= i < ws.len() && 0 <= j < ws[i].meta.tags@.len() && #[trigger] lowercase(
            ws[i].meta.tags@[j]@,
        ) == t
}

spec fn seen_before(ws: Seq<Writing>, k: int, jj: int, t: Seq<char>) -> bool {
    exists|i: int, j: int|
        0 <= i <= k && i < ws.len() && 0 <= j < ws[i].meta.tags@.len() && (i < k || j < jj) && #[trigger] lowercase(
            ws[i].meta.tags@[j]@,
        ) == t
}

/// The lowercase tags of the writings before `k` and of the first `j` tags
/// of writing `k`, in the order they occur, each listed where it first
/// occurs.
pub open spec fn tags_upto(ws: Seq<Writing>, k: nat, j: nat) -> Seq<Seq<char>>
    decreases k, j,
{
    if j > 0 && k < ws.len() && j <= ws[k as int].meta.tags@.len() {
        let p = tags_upto(ws, k, (j - 1) as nat);
        let t = lowercase(ws[k as int].meta.tags@[j - 1]@);
        if p.contains(t) {
            p
        } else {
            p.push(t)
        }
    } else if k > 0 && k <= ws.len() {
        tags_upto(ws, (k - 1) as nat, ws[k - 1].meta.tags@.len())
    } else {
        Seq::empty()
    }
}

/// The tag list of a cache of `ws`: every tag of every writing, lowercased,
/// once, in the order of first occurrence.
pub open spec fn cache_tags(ws: Seq<Writing>) -> Seq<Seq<char>> {
    tags_upto(ws, ws.len(), 0)
}

impl WritingCache {
    /// A cache of the writings, with every tag of every writing, lowercased,
    /// listed once in the order of first occurrence.
    pub fn new(writings: Vec<Writing>) -> (res: Self)
        ensures
            res.writings@ == writings@,
            res.tags.deep_view() == cache_tags(writings@),
            strings_distinct(res.tags.deep_view()),
            forall|t: Seq<char>|
                #[trigger] res.tags.deep_view().contains(t) <==> has_lowercase_tag(writings@, t),
    {
        let mut tags: Vec<String> = Vec::new();
        let n = writings.len();
        for k in 0..n
            invariant
                n == writings@.len(),
                tags.deep_view() == tags_upto(writings@, k as nat, 0),
                strings_distinct(tags.deep_view()),
                forall|t: Seq<char>|
                    #[trigger] tags.deep_view().contains(t) <==> seen_before(
                        writings@,
                        k as int,
                        0,
                        t,
                    ),
        {
            let wt = &writings[k].meta.tags;
            for j in 0..wt.len()
                invariant
                    k < n == writings@.len(),
                    wt == writings@[k as int].meta.tags,
                    tags.deep_view() == tags_upto(writings@, k as nat, j as nat),
                    strings_distinct(tags.deep_view()),
                    forall|t: Seq<char>|
                        #[trigger] tags.deep_view().contains(t) <==> seen_before(
                            writings@,
                            k as int,
                            j as int,
                            t,
                        ),
            {
                let low = to_lowercase(wt[j].as_str());
                let ghost before = tags.deep_view();
                if !contains_string(&tags, &low) {
                    tags.push(low);
                    assert(tags.deep_view() =~= before.push(low@));
                }
                assert forall|t: Seq<char>|
                    seen_before(writings@, k as int, j + 1, t) implies #[trigger] tags.deep_view().contains(
                        t,
                    ) by {
                    let (i, jw) = choose|i: int, jw: int|
                        0 <= i <= k && 0 <= jw < writings@[i].meta.tags@.len() && (i < k || jw < j
                            + 1) && #[trigger] lowercase(writings@[i].meta.tags@[jw]@) == t;
                    if i == k && jw == j {
                        assert(t == low@);
                        if before.contains(low@) {
                            let q = choose|q: int| 0 <= q < before.len() && before[q] == low@;
                            assert(tags.deep_view()[q] == low@);
                        } else {
                            assert(tags.deep_view()[tags.deep_view().len() - 1] == low@);
                        }
                    } else {
                        assert(seen_before(writings@, k as int, j as int, t));
                        assert(before.contains(t));
                        let q = choose|q: int| 0 <= q < before.len() && before[q] == t;
                        assert(tags.deep_view()[q] == t);
                    }
                }
                assert forall|t: Seq<char>|
                    #[trigger] tags.deep_view().contains(t) implies seen_before(
                        writings@,
                        k as int,
                        j + 1,
                        t,
                    ) by {
                    let q = choose|q: int|
                        0 <= q < tags.deep_view().len() && tags.deep_view()[q] == t;
                    if q < before.len() {
                        assert(before[q] == t);
                        assert(before.contains(t));
                        assert(seen_before(writings@, k as int, j as int, t));
                        let (i, jw) = choose|i: int, jw: int|
                            0 <= i <= k && 0 <= jw < writings@[i].meta.tags@.len() && (i < k || jw
                                < j) && #[trigger] lowercase(writings@[i].meta.tags@[jw]@) == t;
                        assert(lowercase(writings@[i].meta.tags@[jw]@) == t);
                    } else {
                        assert(t == low@);
                        assert(lowercase(writings@[k as int].meta.tags@[j as int]@) == t);
                    }
                }
            }
            assert forall|t: Seq<char>|
                seen_before(writings@, k as int, wt@.len() as int, t) == seen_before(
                    writings@,
                    k + 1,
                    0,
                    t,
                ) by {
                if seen_before(writings@, k + 1, 0, t) {
                    let (i, jw) = choose|i: int, jw: int|
                        0 <= i <= k + 1 && 0 <= jw < writings@[i].meta.tags@.len() && (i < k + 1
                            || jw < 0) && #[trigger] lowercase(writings@[i].meta.tags@[jw]@) == t;
                    assert(lowercase(writings@[i].meta.tags@[jw]@) == t);
                    assert(seen_before(writings@, k as int, wt@.len() as int, t));
                }
                if seen_before(writings@, k as int, wt@.len() as int, t) {
                    let (i, jw) = choose|i: int, jw: int|
                        0 <= i <= k && 0 <= jw < writings@[i].meta.tags@.len() && (i < k || jw
                            < wt@.len()) && #[trigger] lowercase(writings@[i].meta.tags@[jw]@) == t;
                    assert(lowercase(writings@[i].meta.tags@[jw]@) == t);
                    assert(seen_before(writings@, k + 1, 0, t));
                }
            }
        }
        assert forall|t: Seq<char>|
            seen_before(writings@, n as int, 0, t) == has_lowercase_tag(writings@, t) by {
            if has_lowercase_tag(writings@, t) {
                let (i, jw) = choose|i: int, jw: int|
                    0 <= i < writings@.len() && 0 <= jw < writings@[i].meta.tags@.len()
                        && #[trigger] lowercase(writings@[i].meta.tags@[jw]@) == t;
                assert(seen_before(writings@, n as int, 0, t));
            }
            if seen_before(writings@, n as int, 0, t) {
                let (i, jw) = choose|i: int, jw: int|
                    0 <= i <= n && 0 <= jw < writings@[i].meta.tags@.len() && (i < n || jw < 0)
                        && #[trigger] lowercase(writings@[i].meta.tags@[jw]@) == t;
                assert(lowercase(writings@[i].meta.tags@[jw]@) == t);
                assert(has_lowercase_tag(writings@, t));
            }
        }
        WritingCache { writings, tags }
    }

    /// The metadata of every cached writing, in order.
    pub fn metas(&self) -> (res: Vec<WritingMeta>)
        ensures
            res.len() == self.writings.len(),
            forall|i: int| 0 <= i < res.len() ==> (#[trigger] res[i])@ == self.writings[i].meta@,
    {
        let mut out: Vec<WritingMeta> = Vec::new();
        for i in 0..self.writings.len()
            invariant
                out.len() == i,
                forall|k: int| 0 <= k < i ==> (#[trigger] out[k])@ == self.writings[k].meta@,
        {
            out.push(self.writings[i].meta.clone());
        }
        out
    }

    /// The first cached writing whose path has the given slug.
    pub fn get_writing(&self, path: &str) -> (res: Option<Writing>)
        ensures
            match res {
                Some(w) => exists|i: int|
                    0 <= i < self.writings.len() && path_slug(self.writings[i].meta.rel_path@)
                        == path@ && (forall|k: int|
                        0 <= k < i ==> path_slug(#[trigger] self.writings[k].meta.rel_path@)
                            != path@) && w@ == self.writings[i]@,
                None => forall|k: int|
                    0 <= k < self.writings.len() ==> path_slug(
                        #[trigger] self.writings[k].meta.rel_path@,
                    ) != path@,
            },
    {
        let wanted = String::from_str(path);
        for i in 0..self.writings.len()
            invariant
                wanted@ == path@,
                forall|k: int|
                    0 <= k < i ==> path_slug(#[trigger] self.writings[k].meta.rel_path@) != path@,
        {
            let slug = slugify_path(self.writings[i].meta.rel_path.as_str());
            if slug == wanted {
                return Some(self.writings[i].clone());
            }
        }
        None
    }
}

/// Whether a writing belongs on the page of tag `name`: `nsfw` and `sfw`
/// go by the flag, any other name by the lowercased name among its tags.
pub open spec fn tagged_with(m: MetaView, name: Seq<char>) -> bool {
    if name == nsfw_name() {
        m.is_nsfw
    } else if name == sfw_name() {
        !m.is_nsfw
    } else {
        m.tags.contains(lowercase(name))
    }
}

/// The writings, in order, that belong on the page of tag `name`.
pub open spec fn tagged(ms: Seq<WritingMeta>, name: Seq<char>) -> Seq<WritingMeta>
    decreases ms.len(),
{
    if ms.len() == 0 {
        Seq::empty()
    } else {
        let r = tagged(ms.drop_last(), name);
        if tagged_with(ms.last()@, name) {
            r.push(ms.last())
        } else {
            r
        }
    }
}

fn str_is(s: &str, lit: &str) -> (res: bool)
    ensures
        res == (s@ == lit@),
{
    let a = String::from_str(s);
    let b = String::from_str(lit);
    a == b
}

/// Keeps the writings that belong on the page of tag `name`.
pub fn writings_tagged(metas: Vec<WritingMeta>, name: &str) -> (res: Vec<WritingMeta>)
    ensures
        res@ == tagged(metas@, name@),
{
    proof {
        reveal_strlit("nsfw");
        reveal_strlit("sfw");
        assert("nsfw"@ =~= nsfw_name());
        assert("sfw"@ =~= sfw_name());
    }
    let is_nsfw_tag = str_is(name, "nsfw");
    let is_sfw_tag = str_is(name, "sfw");
    let low = to_lowercase(name);
    let ghost orig = metas@;
    let mut rest = metas;
    let mut out: Vec<WritingMeta> = Vec::new();
    let n = rest.len();
    assert(orig.take(0) =~= Seq::<WritingMeta>::empty());
    assert(orig.skip(0) =~= orig);
    let mut k: usize = 0;
    while k < n
        invariant
            k <= n == orig.len(),
            rest@ == orig.skip(k as int),
            out@ == tagged(orig.take(k as int), name@),
            is_nsfw_tag == (name@ == nsfw_name()),
            is_sfw_tag == (name@ == sfw_name()),
            low@ == lowercase(name@),
        decreases n - k,
    {
        let m = rest.remove(0);
        assert(m == orig[k as int]);
        assert(orig.take(k + 1).drop_last() =~= orig.take(k as int));
        assert(orig.take(k + 1).last() == m);
        assert(rest@ =~= orig.skip(k + 1));
        let keep = if is_nsfw_tag {
            m.is_nsfw
        } else if is_sfw_tag {
            !m.is_nsfw
        } else {
            contains_string(&m.tags, &low)
        };
        if keep {
            out.push(m);
        }
        k += 1;
    }
    assert(orig.take(n as int) =~= orig);
    out
}

proof fn lemma_tagged_len(ms: Seq<WritingMeta>)
    ensures
        tagged(ms, nsfw_name()).len() + tagged(ms, sfw_name()).len() == ms.len(),
    decreases ms.len(),
{
    assert(nsfw_name() != sfw_name()) by {
        assert(nsfw_name().len() != sfw_name().len());
    }
    if ms.len() > 0 {
        lemma_tagged_len(ms.drop_last());
    }
}

/// The pages of the tags `nsfw` and `sfw` split the writings: together they
/// hold as many writings as the cache, every one on the `nsfw` page marked
/// nsfw and none on the `sfw` page.
pub proof fn lemma_nsfw_sfw_partition(ms: Seq<WritingMeta>)
    ensures
        tagged(ms, nsfw_name()).len() + tagged(ms, sfw_name()).len() == ms.len(),
        forall|i: int|
            0 <= i < tagged(ms, nsfw_name()).len() ==> (#[trigger] tagged(ms, nsfw_name())[i]).is_nsfw,
        forall|i: int|
            0 <= i < tagged(ms, sfw_name()).len() ==> !(#[trigger] tagged(ms, sfw_name())[i]).is_nsfw,
    decreases ms.len(),
{
    lemma_tagged_len(ms);
    assert(nsfw_name() != sfw_name()) by {
        assert(nsfw_name().len() != sfw_name().len());
    }
    if ms.len() > 0 {
        lemma_nsfw_sfw_partition(ms.drop_last());
    }
}

/// Every cached writing can be found again by the slug of its path: the
/// lookup of that slug finds a writing (the first one with that slug).
pub proof fn lemma_slug_resolves(ws: Seq<Writing>, i: int)
    requires
        0 <= i < ws.len(),
    ensures
        exists|j: int|
            0 <= j <= i && path_slug(ws[j].meta.rel_path@) == path_slug(ws[i].meta.rel_path@) && (
            forall|k: int|
                0 <= k < j ==> path_slug(#[trigger] ws[k].meta.rel_path@) != path_slug(
                    ws[i].meta.rel_path@,
                )),
    decreases i,
{
    let p = path_slug(ws[i].meta.rel_path@);
    if exists|k: int| 0 <= k < i && path_slug(#[trigger] ws[k].meta.rel_path@) == p {
        let k = choose|k: int| 0 <= k < i && path_slug(#[trigger] ws[k].meta.rel_path@) == p;
        lemma_slug_resolves(ws, k);
    } else {
        assert(path_slug(ws[i].meta.rel_path@) == p);
    }
}

pub open spec fn missing_tag_message(name: Seq<char>) -> Seq<char> {
    "No tag with name `"@ + name + "` found"@
}

/// The writings on the page of tag `name`; an error when the tag index has
/// no such tag.
pub fn tag_page_writings(counts: &Vec<TagCount>, metas: Vec<WritingMeta>, name: &str) -> (res:
    Result<Vec<WritingMeta>, Error>)
    ensures
        count_of(counts@, name@) is None ==> (res matches Err(Error::Internal(m)) && m@
            == missing_tag_message(name@)),
        count_of(counts@, name@) is Some ==> (res matches Ok(v) && v@ == tagged(metas@, name@)),
{
    let wanted = String::from_str(name);
    let mut found = false;
    for i in 0..counts.len()
        invariant
            wanted@ == name@,
            found ==> count_of(counts@, name@) is Some,
            !found ==> forall|k: int| 0 <= k < i ==> (#[trigger] counts@[k]).name@ != name@,
    {
        if counts[i].name == wanted {
            proof {
                lemma_count_of_some(counts@, i as int);
            }
            found = true;
        }
    }
    if !found {
        proof {
            lemma_count_of_none(counts@, name@);
        }
        let mut m = String::from_str("No tag with name `");
        m.append(name);
        m.append("` found");
        return Err(Error::Internal(m));
    }
    Ok(writings_tagged(metas, name))
}

proof fn lemma_count_of_some(s: Seq<TagCount>, i: int)
    requires
        0 <= i < s.len(),
    ensures
        count_of(s, s[i].name@) is Some,
    decreases s.len(),
{
    if s.last().name@ != s[i].name@ {
        assert(i != s.len() - 1);
        lemma_count_of_some(s.drop_last(), i);
    }
}

proof fn lemma_count_of_none(s: Seq<TagCount>, t: Seq<char>)
    requires
        forall|k: int| 0 <= k < s.len() ==> (#[trigger] s[k]).name@ != t,
    ensures
        count_of(s, t) is None,
    decreases s.len(),
{
    if s.len() > 0 {
        assert(s.last() == s[s.len() - 1]);
        lemma_count_of_none(s.drop_last(), t);
    }
}


/// The page of tag `name` lists, in order, exactly the writings that belong
/// there: for `nsfw` the nsfw ones, for `sfw` the others, and for any other
/// name the ones carrying the name in lowercase.
pub proof fn lemma_tag_page_members(ms: Seq<WritingMeta>, name: Seq<char>)
    ensures
        tagged(ms, name) == ms.filter(
            |m: WritingMeta|
                if name == seq!['n', 's', 'f', 'w'] {
                    m.is_nsfw
                } else if name == seq!['s', 'f', 'w'] {
                    !m.is_nsfw
                } else {
                    m.tags.deep_view().contains(lowercase(name))
                },
        ),
    decreases ms.len(),
{
    reveal(Seq::filter);
    if ms.len() > 0 {
        lemma_tag_page_members(ms.drop_last(), name);
    }
}

} // verus!
