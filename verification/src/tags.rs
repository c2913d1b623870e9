//! The tag index: how many visible writings carry each tag.

use vstd::prelude::*;
use vstd::string::StringExecFns;

use crate::fossil::Writing;

verus! {

broadcast use vstd::std_specs::vec::vec_clone_deep_view_proof;

pub open spec fn sfw_name() -> Seq<char> {
    seq!['s', 'f', 'w']
}

pub open spec fn nsfw_name() -> Seq<char> {
    seq!['n', 's', 'f', 'w']
}

/// A tag and how many writings carry it.
#[derive(Debug)]
pub struct TagCount {
    pub name: String,
    pub count: u64,
}

/// How often `t` occurs in a list of tags.
pub open spec fn occurrences(tags: Seq<Seq<char>>, t: Seq<char>) -> nat
    decreases tags.len(),
{
    if tags.len() == 0 {
        0
    } else {
        occurrences(tags.drop_last(), t) + if tags.last() == t {
            1nat
        } else {
            0nat
        }
    }
}

/// How often `t` occurs among the tags of the writings that are not hidden.
pub open spec fn tag_total(ws: Seq<Writing>, t: Seq<char>) -> nat
    decreases ws.len(),
{
    if ws.len() == 0 {
        0
    } else {
        tag_total(ws.drop_last(), t) + if ws.last().meta.is_hidden {
            0nat
        } else {
            occurrences(ws.last().meta.tags.deep_view(), t)
        }
    }
}

/// How many writings that are not hidden have the given nsfw flag.
pub open spec fn visible_count(ws: Seq<Writing>, nsfw: bool) -> nat
    decreases ws.len(),
{
    if ws.len() == 0 {
        0
    } else {
        visible_count(ws.drop_last(), nsfw) + if !ws.last().meta.is_hidden
            && ws.last().meta.is_nsfw == nsfw {
            1nat
        } else {
            0nat
        }
    }
}

/// Number of tag entries over all writings.
pub open spec fn tag_entries(ws: Seq<Writing>) -> nat
    decreases ws.len(),
{
    if ws.len() == 0 {
        0
    } else {
        tag_entries(ws.drop_last()) + ws.last().meta.tags@.len()
    }
}

/// The count that the tag index shows for `t`, if it shows `t` at all:
/// `sfw` counts the visible writings that are not nsfw, `nsfw` (outside
/// parental mode) the visible ones that are, and every other tag its
/// occurrences on visible writings.
pub open spec fn tag_index_entry(ws: Seq<Writing>, parental: bool, t: Seq<char>) -> Option<nat> {
    if t == sfw_name() {
        Some(visible_count(ws, false))
    } else if t == nsfw_name() && !parental {
        Some(visible_count(ws, true))
    } else if tag_total(ws, t) > 0 {
        Some(tag_total(ws, t))
    } else {
        None
    }
}

/// Number of writings that are not hidden.
pub open spec fn visible_total(ws: Seq<Writing>) -> nat
    decreases ws.len(),
{
    if ws.len() == 0 {
        0
    } else {
        visible_total(ws.drop_last()) + if ws.last().meta.is_hidden {
            0nat
        } else {
            1nat
        }
    }
}

/// Outside parental mode, the counts under `nsfw` and `sfw` add up to the
/// number of writings that are not hidden.
pub proof fn lemma_nsfw_sfw_counts(ws: Seq<Writing>)
    ensures
        tag_index_entry(ws, false, nsfw_name()) is Some,
        tag_index_entry(ws, false, sfw_name()) is Some,
        tag_index_entry(ws, false, nsfw_name()).unwrap() + tag_index_entry(
            ws,
            false,
            sfw_name(),
        ).unwrap() == visible_total(ws),
    decreases ws.len(),
{
    assert(nsfw_name() != sfw_name()) by {
        assert(nsfw_name().len() != sfw_name().len());
    }
    if ws.len() > 0 {
        lemma_nsfw_sfw_counts(ws.drop_last());
    }
}

pub open spec fn names_distinct(s: Seq<TagCount>) -> bool {
    forall|i: int, j: int| 0 <= i < j < s.len() ==> s[i].name@ != s[j].name@
}

/// The count recorded for `t`, if any.
pub open spec fn count_of(s: Seq<TagCount>, t: Seq<char>) -> Option<nat>
    decreases s.len(),
{
    if s.len() == 0 {
        None
    } else if s.last().name@ == t {
        Some(s.last().count as nat)
    } else {
        count_of(s.drop_last(), t)
    }
}

proof fn lemma_count_of_found(s: Seq<TagCount>, i: int)
    requires
        names_distinct(s),
        0 <= i < s.len(),
    ensures
        count_of(s, s[i].name@) == Some(s[i].count as nat),
    decreases s.len(),
{
    if i < s.len() - 1 {
        lemma_count_of_found(s.drop_last(), i);
    }
}

proof fn lemma_count_of_absent(s: Seq<TagCount>, t: Seq<char>)
    requires
        forall|i: int| 0 <= i < s.len() ==> (#[trigger] s[i]).name@ != t,
    ensures
        count_of(s, t) is None,
    decreases s.len(),
{
    if s.len() > 0 {
        assert(s.last() == s[s.len() - 1]);
        lemma_count_of_absent(s.drop_last(), t);
    }
}

proof fn lemma_count_of_update(s: Seq<TagCount>, i: int, y: TagCount, t: Seq<char>)
    requires
        0 <= i < s.len(),
        y.name@ == s[i].name@,
        names_distinct(s),
    ensures
        count_of(s.update(i, y), t) == if t == y.name@ {
            Some(y.count as nat)
        } else {
            count_of(s, t)
        },
    decreases s.len(),
{
    let u = s.update(i, y);
    if i == s.len() - 1 {
        assert(u.drop_last() =~= s.drop_last());
        if t != y.name@ {
        }
    } else {
        assert(u.drop_last() =~= s.drop_last().update(i, y));
        lemma_count_of_update(s.drop_last(), i, y, t);
        if t == y.name@ {
            assert(s.last() == s[s.len() - 1]);
        }
    }
}

/// Finds the entry for `t`.
fn find_tag(out: &Vec<TagCount>, t: &String) -> (res: Option<usize>)
    ensures
        res matches Some(i) ==> i < out.len() && out@[i as int].name@ == t@,
        res is None ==> forall|i: int| 0 <= i < out.len() ==> (#[trigger] out@[i]).name@ != t@,
{
    for i in 0..out.len()
        invariant
            forall|k: int| 0 <= k < i ==> (#[trigger] out@[k]).name@ != t@,
    {
        if out[i].name == *t {
            return Some(i);
        }
    }
    None
}

/// Adds one to the count of `t`, recording it with 1 when new.
fn bump(out: &mut Vec<TagCount>, t: &String)
    requires
        names_distinct(old(out)@),
        forall|i: int| 0 <= i < old(out)@.len() ==> (#[trigger] old(out)@[i]).count < u64::MAX,
    ensures
        names_distinct(final(out)@),
        forall|u: Seq<char>|
            #[trigger] count_of(final(out)@, u) == if u == t@ {
                match count_of(old(out)@, u) {
                    Some(c) => Some(c + 1),
                    None => Some(1nat),
                }
            } else {
                count_of(old(out)@, u)
            },
{
    let ghost before = out@;
    match find_tag(out, t) {
        Some(i) => {
            let c = out[i].count;
            let name = t.clone();
            proof {
                lemma_count_of_found(before, i as int);
            }
            out.set(i, TagCount { name, count: c + 1 });
            proof {
                assert forall|u: Seq<char>| #[trigger] count_of(out@, u) == if u == t@ {
                    match count_of(before, u) {
                        Some(c) => Some(c + 1),
                        None => Some(1nat),
                    }
                } else {
                    count_of(before, u)
                } by {
                    lemma_count_of_update(before, i as int, out@[i as int], u);
                }
            }
        },
        None => {
            proof {
                lemma_count_of_absent(before, t@);
            }
            out.push(TagCount { name: t.clone(), count: 1 });
            proof {
                assert(out@.drop_last() =~= before);
            }
        },
    }
}

/// Records `value` for `name`, replacing any earlier count.
fn set_count(out: &mut Vec<TagCount>, name: String, value: u64)
    requires
        names_distinct(old(out)@),
    ensures
        names_distinct(final(out)@),
        forall|u: Seq<char>|
            #[trigger] count_of(final(out)@, u) == if u == name@ {
                Some(value as nat)
            } else {
                count_of(old(out)@, u)
            },
{
    let ghost before = out@;
    let ghost nm = name@;
    match find_tag(out, &name) {
        Some(i) => {
            out.set(i, TagCount { name, count: value });
            proof {
                assert forall|u: Seq<char>| #[trigger] count_of(out@, u) == if u == nm {
                    Some(value as nat)
                } else {
                    count_of(before, u)
                } by {
                    lemma_count_of_update(before, i as int, out@[i as int], u);
                }
            }
        },
        None => {
            out.push(TagCount { name, count: value });
            proof {
                assert(out@.drop_last() =~= before);
            }
        },
    }
}

proof fn lemma_occurrences_le(tags: Seq<Seq<char>>, t: Seq<char>)
    ensures
        occurrences(tags, t) <= tags.len(),
    decreases tags.len(),
{
    if tags.len() > 0 {
        lemma_occurrences_le(tags.drop_last(), t);
    }
}

proof fn lemma_total_le_entries(ws: Seq<Writing>, t: Seq<char>)
    ensures
        tag_total(ws, t) <= tag_entries(ws),
    decreases ws.len(),
{
    if ws.len() > 0 {
        lemma_total_le_entries(ws.drop_last(), t);
        lemma_occurrences_le(ws.last().meta.tags.deep_view(), t);
    }
}

proof fn lemma_entries_prefix(ws: Seq<Writing>, k: int)
    requires
        0 <= k <= ws.len(),
    ensures
        tag_entries(ws.take(k)) <= tag_entries(ws),
    decreases ws.len() - k,
{
    if k < ws.len() {
        lemma_entries_prefix(ws, k + 1);
        assert(ws.take(k + 1).drop_last() =~= ws.take(k));
    } else {
        assert(ws.take(k) =~= ws);
    }
}

pub open spec fn present(n: nat) -> Option<nat> {
    if n > 0 {
        Some(n)
    } else {
        None
    }
}

/// Counts the tags of the writings that are not hidden, then records the
/// number of visible nsfw writings under `nsfw` (outside parental mode)
/// and of visible other writings under `sfw`, as the tag index shows them.
pub fn tag_list(ws: &Vec<Writing>, parental: bool) -> (res: Vec<TagCount>)
    requires
        tag_entries(ws@) < u64::MAX,
    ensures
        names_distinct(res@),
        forall|t: Seq<char>| #[trigger] count_of(res@, t) == tag_index_entry(ws@, parental, t),
{
    let mut out: Vec<TagCount> = Vec::new();
    let n = ws.len();
    for k in 0..n
        invariant
            n == ws@.len(),
            tag_entries(ws@) < u64::MAX,
            names_distinct(out@),
            forall|t: Seq<char>|
                #[trigger] count_of(out@, t) == present(tag_total(ws@.take(k as int), t)),
    {
        let ghost pre = ws@.take(k as int);
        proof {
            assert(ws@.take(k + 1).drop_last() =~= pre);
            assert(ws@.take(k + 1).last() == ws@[k as int]);
            lemma_entries_prefix(ws@, k + 1);
        }
        if !ws[k].meta.is_hidden {
            let tags = &ws[k].meta.tags;
            let ghost dv = tags.deep_view();
            for j in 0..tags.len()
                invariant
                    n == ws@.len(),
                    k < n,
                    tags == ws@[k as int].meta.tags,
                    dv == tags.deep_view(),
                    tag_entries(pre) + tags@.len() <= tag_entries(ws@),
                    tag_entries(ws@) < u64::MAX,
                    names_distinct(out@),
                    forall|t: Seq<char>|
                        #[trigger] count_of(out@, t) == present(
                            tag_total(pre, t) + occurrences(dv.take(j as int), t),
                        ),
            {
                proof {
                    assert(dv.take(j + 1).drop_last() =~= dv.take(j as int));
                    assert(dv.take(j + 1).last() == tags@[j as int]@);
                    assert forall|i: int| 0 <= i < out@.len() implies (#[trigger] out@[i]).count
                        < u64::MAX by {
                        lemma_count_of_found(out@, i);
                        let u = out@[i].name@;
                        lemma_total_le_entries(pre, u);
                        lemma_occurrences_le(dv.take(j as int), u);
                    }
                }
                bump(&mut out, &tags[j]);
            }
            proof {
                assert(dv.take(tags.len() as int) =~= dv);
            }
        }
    }
    assert(ws@.take(n as int) =~= ws@);
    let mut nsfw: u64 = 0;
    let mut sfw: u64 = 0;
    for k in 0..n
        invariant
            n == ws@.len(),
            nsfw <= k,
            sfw <= k,
            nsfw == visible_count(ws@.take(k as int), true),
            sfw == visible_count(ws@.take(k as int), false),
    {
        assert(ws@.take(k + 1).drop_last() =~= ws@.take(k as int));
        assert(ws@.take(k + 1).last() == ws@[k as int]);
        if !ws[k].meta.is_hidden {
            if ws[k].meta.is_nsfw {
                nsfw += 1;
            } else {
                sfw += 1;
            }
        }
    }
    proof {
        reveal_strlit("nsfw");
        reveal_strlit("sfw");
    }
    if !parental {
        set_count(&mut out, String::from_str("nsfw"), nsfw);
    }
    set_count(&mut out, String::from_str("sfw"), sfw);
    proof {
        assert("nsfw"@ =~= nsfw_name());
        assert("sfw"@ =~= sfw_name());
    }
    out
}


proof fn lemma_occurrences_filter(tags: Seq<Seq<char>>, t: Seq<char>)
    ensures
        occurrences(tags, t) == tags.filter(|x: Seq<char>| x == t).len(),
    decreases tags.len(),
{
    reveal(Seq::filter);
    if tags.len() > 0 {
        lemma_occurrences_filter(tags.drop_last(), t);
    }
}

/// The tags of the writings that are not hidden, all together in order.
pub open spec fn visible_tags(ws: Seq<Writing>) -> Seq<Seq<char>> {
    ws.filter(|w: Writing| !w.meta.is_hidden).map_values(|w: Writing| w.meta.tags.deep_view()).flatten()
}

proof fn lemma_tag_total_filter(ws: Seq<Writing>, t: Seq<char>)
    ensures
        tag_total(ws, t) == visible_tags(ws).filter(|x: Seq<char>| x == t).len(),
        visible_count(ws, true) == ws.filter(|w: Writing| !w.meta.is_hidden && w.meta.is_nsfw).len(),
        visible_count(ws, false) == ws.filter(|w: Writing| !w.meta.is_hidden && !w.meta.is_nsfw).len(),
    decreases ws.len(),
{
    reveal(Seq::filter);
    if ws.len() > 0 {
        let ps = ws.drop_last();
        let w = ws.last();
        lemma_tag_total_filter(ps, t);
        let vis = |w: Writing| !w.meta.is_hidden;
        let g = |w: Writing| w.meta.tags.deep_view();
        let eq = |x: Seq<char>| x == t;
        if !w.meta.is_hidden {
            assert(ws.filter(vis) == ps.filter(vis).push(w));
            assert(ws.filter(vis).map_values(g) =~= ps.filter(vis).map_values(g).push(
                w.meta.tags.deep_view(),
            ));
            ps.filter(vis).map_values(g).lemma_flatten_push(w.meta.tags.deep_view());
            Seq::filter_distributes_over_add(visible_tags(ps), w.meta.tags.deep_view(), eq);
            lemma_occurrences_filter(w.meta.tags.deep_view(), t);
            assert(visible_tags(ws) == visible_tags(ps) + w.meta.tags.deep_view());
        } else {
            assert(ws.filter(vis) == ps.filter(vis));
        }
    }
}

/// The tag index counts what the site shows: `sfw` the writings that are
/// neither hidden nor nsfw; outside parental mode `nsfw` the writings that
/// are nsfw and not hidden; every other tag the times it is carried by
/// writings that are not hidden, and it is listed only when that is not
/// zero.
pub proof fn lemma_tag_index_counts(ws: Seq<Writing>, parental: bool, t: Seq<char>)
    ensures
        t == seq!['s', 'f', 'w'] ==> tag_index_entry(ws, parental, t) == Some(
            ws.filter(|w: Writing| !w.meta.is_hidden && !w.meta.is_nsfw).len(),
        ),
        t == seq!['n', 's', 'f', 'w'] && !parental ==> tag_index_entry(ws, parental, t) == Some(
            ws.filter(|w: Writing| !w.meta.is_hidden && w.meta.is_nsfw).len(),
        ),
        t != seq!['s', 'f', 'w'] && !(t == seq!['n', 's', 'f', 'w'] && !parental) ==> {
            let c = ws.filter(|w: Writing| !w.meta.is_hidden).map_values(
                |w: Writing| w.meta.tags.deep_view(),
            ).flatten().filter(|x: Seq<char>| x == t).len();
            &&& c > 0 ==> tag_index_entry(ws, parental, t) == Some(c)
            &&& c == 0 ==> tag_index_entry(ws, parental, t) is None
        },
{
    lemma_tag_total_filter(ws, t);
}

} // verus!
