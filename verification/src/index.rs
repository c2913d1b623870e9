//! The entries that writings get in the search index.

use vstd::prelude::*;
use vstd::string::StringExecFns;

use crate::date::{date_error_name, midnight, DateTimeView, DateTriple, RealDateTime};
use crate::err::Error;
use crate::fossil::Writing;
use crate::paths::{path_slug, slugify_path};
use crate::sitemap::on_calendar;
use crate::text::{join, word_count, words};

verus! {

broadcast use vstd::std_specs::vec::vec_clone_deep_view_proof;

/// The fields under which a writing is entered in the search index.
pub struct IndexDoc {
    pub title: String,
    pub description: Option<String>,
    pub content: String,
    /// The tags, separated by spaces, for text search.
    pub tags: String,
    /// One `/tag/<name>` facet per tag, for exact filtering.
    pub facets: Vec<String>,
    pub date: RealDateTime,
    pub nsfw: bool,
    pub hidden: bool,
    pub slug: String,
    pub word_count: u64,
}

pub struct IndexDocView {
    pub title: Seq<char>,
    pub description: Option<Seq<char>>,
    pub content: Seq<char>,
    pub tags: Seq<char>,
    pub facets: Seq<Seq<char>>,
    pub date: DateTimeView,
    pub nsfw: bool,
    pub hidden: bool,
    pub slug: Seq<char>,
    pub word_count: nat,
}

impl View for IndexDoc {
    type V = IndexDocView;

    open spec fn view(&self) -> IndexDocView {
        IndexDocView {
            title: self.title@,
            description: self.description.deep_view(),
            content: self.content@,
            tags: self.tags@,
            facets: self.facets.deep_view(),
            date: self.date@,
            nsfw: self.nsfw,
            hidden: self.hidden,
            slug: self.slug@,
            word_count: self.word_count as nat,
        }
    }
}

/// A writing goes into the index unless it is hidden, or nsfw in parental
/// mode.
pub open spec fn indexed(w: Writing, parental: bool) -> bool {
    !w.meta.is_hidden && !(parental && w.meta.is_nsfw)
}

pub open spec fn facet_of(t: Seq<char>) -> Seq<char> {
    seq!['/', 't', 'a', 'g', '/'] + t
}

/// The index entry of a writing.
pub open spec fn doc_of(w: Writing) -> IndexDocView {
    IndexDocView {
        title: w.meta.title@,
        description: w.meta.description.deep_view(),
        content: w.content@,
        tags: join(w.meta.tags.deep_view(), seq![' ']),
        facets: w.meta.tags.deep_view().map_values(|t: Seq<char>| facet_of(t)),
        date: midnight(w.meta.date_authored),
        nsfw: w.meta.is_nsfw,
        hidden: w.meta.is_hidden,
        slug: path_slug(w.meta.rel_path@),
        word_count: words(w.content@).len(),
    }
}

/// The entries of the writings that go into the index, in order.
pub open spec fn index_docs_spec(ws: Seq<Writing>, parental: bool) -> Seq<IndexDocView>
    decreases ws.len(),
{
    if ws.len() == 0 {
        Seq::empty()
    } else {
        let r = index_docs_spec(ws.drop_last(), parental);
        if indexed(ws.last(), parental) {
            r.push(doc_of(ws.last()))
        } else {
            r
        }
    }
}

/// The first writing to index whose date is not on the calendar.
pub open spec fn first_unindexable(ws: Seq<Writing>, parental: bool) -> Option<DateTriple>
    decreases ws.len(),
{
    if ws.len() == 0 {
        None
    } else {
        let p = first_unindexable(ws.drop_last(), parental);
        let w = ws.last();
        if p is Some {
            p
        } else if indexed(w, parental) && !on_calendar(w.meta.date_authored) {
            Some(w.meta.date_authored)
        } else {
            None
        }
    }
}

/// Parental mode keeps nsfw writings out of the search index.
pub proof fn lemma_parental_index(ws: Seq<Writing>)
    ensures
        forall|i: int|
            0 <= i < index_docs_spec(ws, true).len() ==> !(#[trigger] index_docs_spec(ws, true)[i]).nsfw,
        forall|i: int|
            0 <= i < index_docs_spec(ws, true).len() ==> !(#[trigger] index_docs_spec(ws, true)[i]).hidden,
    decreases ws.len(),
{
    if ws.len() > 0 {
        lemma_parental_index(ws.drop_last());
    }
}

fn join_tags(tags: &Vec<String>) -> (res: String)
    ensures
        res@ == join(tags.deep_view(), seq![' ']),
{
    let mut out = String::new();
    let ghost dv = tags.deep_view();
    for i in 0..tags.len()
        invariant
            dv == tags.deep_view(),
            out@ == join(dv.take(i as int), seq![' ']),
    {
        assert(dv.take(i + 1).drop_last() =~= dv.take(i as int));
        assert(dv.take(i + 1).last() == tags@[i as int]@);
        if i > 0 {
            crate::text::push_char(&mut out, ' ');
        }
        out.append(tags[i].as_str());
        proof {
            if i == 0 {
                assert(out@ =~= join(dv.take(1), seq![' ']));
            } else {
                assert(out@ =~= join(dv.take(i + 1), seq![' ']));
            }
        }
    }
    assert(dv.take(tags.len() as int) =~= dv);
    out
}

fn facets_of(tags: &Vec<String>) -> (res: Vec<String>)
    ensures
        res.deep_view() == tags.deep_view().map_values(|t: Seq<char>| facet_of(t)),
{
    let mut out: Vec<String> = Vec::new();
    for i in 0..tags.len()
        invariant
            out.len() == i,
            forall|k: int| 0 <= k < i ==> (#[trigger] out@[k])@ == facet_of(tags@[k]@),
    {
        proof {
            reveal_strlit("/tag/");
        }
        let mut f = String::from_str("/tag/");
        f.append(tags[i].as_str());
        out.push(f);
    }
    assert(out.deep_view() =~= tags.deep_view().map_values(|t: Seq<char>| facet_of(t)));
    out
}

proof fn lemma_first_unindexable_prefix(ws: Seq<Writing>, parental: bool, k: int)
    requires
        0 <= k <= ws.len(),
        first_unindexable(ws.take(k), parental) is Some,
    ensures
        first_unindexable(ws, parental) == first_unindexable(ws.take(k), parental),
    decreases ws.len() - k,
{
    if k < ws.len() {
        assert(ws.take(k + 1).drop_last() =~= ws.take(k));
        lemma_first_unindexable_prefix(ws, parental, k + 1);
    } else {
        assert(ws.take(k) =~= ws);
    }
}

/// The entries for the search index. Fails with the first date, among the
/// writings to index, that is not on the calendar.
pub fn index_documents(writings: &Vec<Writing>, parental: bool) -> (res: Result<Vec<IndexDoc>, Error>)
    ensures
        match first_unindexable(writings@, parental) {
            Some(d) => res matches Err(Error::ComponentRange(e)) && e@ == date_error_name(d),
            None => res matches Ok(v) && v@.map_values(|d: IndexDoc| d@) == index_docs_spec(
                writings@,
                parental,
            ),
        },
{
    let mut out: Vec<IndexDoc> = Vec::new();
    for k in 0..writings.len()
        invariant
            first_unindexable(writings@.take(k as int), parental) is None,
            out@.map_values(|d: IndexDoc| d@) == index_docs_spec(writings@.take(k as int), parental),
    {
        assert(writings@.take(k + 1).drop_last() =~= writings@.take(k as int));
        assert(writings@.take(k + 1).last() == writings@[k as int]);
        let w = &writings[k];
        if !w.meta.is_hidden && !(parental && w.meta.is_nsfw) {
            let date = match w.meta.date_authored.into_real_datetime() {
                Ok(d) => d,
                Err(e) => {
                    proof {
                        lemma_first_unindexable_prefix(writings@, parental, k + 1);
                    }
                    return Err(e);
                },
            };
            let count = word_count(w.content.as_str());
            let doc = IndexDoc {
                title: w.meta.title.clone(),
                description: match &w.meta.description {
                    Some(d) => Some(d.clone()),
                    None => None,
                },
                content: w.content.clone(),
                tags: join_tags(&w.meta.tags),
                facets: facets_of(&w.meta.tags),
                date,
                nsfw: w.meta.is_nsfw,
                hidden: w.meta.is_hidden,
                slug: slugify_path(w.meta.rel_path.as_str()),
                word_count: count as u64,
            };
            let ghost before = out@;
            out.push(doc);
            assert(out@.map_values(|d: IndexDoc| d@) =~= before.map_values(|d: IndexDoc| d@).push(
                doc_of(writings@[k as int]),
            ));
        } else {
            assert(index_docs_spec(writings@.take(k + 1), parental) == index_docs_spec(
                writings@.take(k as int),
                parental,
            ));
        }
    }
    assert(writings@.take(writings.len() as int) =~= writings@);
    Ok(out)
}


/// The search index holds one entry per writing that is neither hidden nor,
/// in parental mode, nsfw, in the order of the writings; each entry carries
/// that writing's own title, description, text, tags (joined by spaces and
/// as `/tag/<name>` facets), date at midnight, flags, slug and word count.
pub proof fn lemma_index_docs_follow_writings(ws: Seq<Writing>, parental: bool)
    ensures
        index_docs_spec(ws, parental).len() == ws.filter(
            |w: Writing| !w.meta.is_hidden && !(parental && w.meta.is_nsfw),
        ).len(),
        forall|j: int|
            0 <= j < index_docs_spec(ws, parental).len() ==> {
                let d = #[trigger] index_docs_spec(ws, parental)[j];
                let w = ws.filter(|w: Writing| !w.meta.is_hidden && !(parental && w.meta.is_nsfw))[j];
                &&& d.title == w.meta.title@
                &&& d.description == w.meta.description.deep_view()
                &&& d.content == w.content@
                &&& d.tags == join(w.meta.tags.deep_view(), seq![' '])
                &&& d.facets.len() == w.meta.tags@.len()
                &&& (forall|t: int|
                    0 <= t < d.facets.len() ==> #[trigger] d.facets[t] == seq!['/', 't', 'a', 'g', '/']
                        + w.meta.tags@[t]@)
                &&& d.date.date == w.meta.date_authored
                &&& d.date.hour == 0 && d.date.minute == 0 && d.date.second == 0
                    && d.date.nanosecond == 0
                &&& d.nsfw == w.meta.is_nsfw
                &&& d.hidden == w.meta.is_hidden
                &&& d.slug == path_slug(w.meta.rel_path@)
                &&& d.word_count == words(w.content@).len()
            },
    decreases ws.len(),
{
    reveal(Seq::filter);
    if ws.len() > 0 {
        lemma_index_docs_follow_writings(ws.drop_last(), parental);
    }
}

} // verus!
