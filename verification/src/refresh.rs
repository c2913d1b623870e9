//! Keeping the cache in step with the repository: the decisions of the
//! background refresh, from what happened to the next cache and action.
//!
//! Each tick the repository is updated; when it then stands at another
//! commit the files are listed, and a successful listing replaces the cache.

use vstd::prelude::*;

use crate::cache::{cache_tags, WritingCache};
use crate::err::Error;
use crate::fossil::{CommitRef, Writing};

verus! {

/// What the refresh loop learnt since its last step.
pub enum RefreshEvent {
    /// The repository was updated; the commit before and after the update.
    Updated { previous: CommitRef, current: CommitRef },
    /// The files of the repository were listed.
    Listed(Result<Vec<Writing>, Error>),
}

/// What the refresh loop does next.
pub enum RefreshAction {
    /// List the files of the repository and report the outcome.
    ListFiles,
    /// Wait for the next tick.
    Wait,
    /// Log the error, then wait for the next tick.
    Warn(Error),
}

/// What the refresh reads of a cache: its writings and its tag list.
pub open spec fn cache_state(c: WritingCache) -> (Seq<Writing>, Seq<Seq<char>>) {
    (c.writings@, c.tags.deep_view())
}

/// Whether two commit references name the same commit at the same time.
pub open spec fn same_commit(a: CommitRef, b: CommitRef) -> bool {
    a.shorthand@ == b.shorthand@ && a.commit_time_utc == b.commit_time_utc
}

/// One step of the refresh: the cache after an event, and what to do next.
pub open spec fn step_spec(c: (Seq<Writing>, Seq<Seq<char>>), e: RefreshEvent) -> (
    (Seq<Writing>, Seq<Seq<char>>),
    RefreshAction,
) {
    match e {
        RefreshEvent::Updated { previous, current } => if same_commit(previous, current) {
            (c, RefreshAction::Wait)
        } else {
            (c, RefreshAction::ListFiles)
        },
        RefreshEvent::Listed(Ok(ws)) => ((ws@, cache_tags(ws@)), RefreshAction::Wait),
        RefreshEvent::Listed(Err(err)) => (c, RefreshAction::Warn(err)),
    }
}

/// Takes one step: after an update, asks for a listing exactly when the
/// repository moved to another commit; after a listing, replaces the cache
/// with the listed writings, or keeps it and reports the error.
pub fn refresh_step(cache: &mut WritingCache, event: RefreshEvent) -> (action: RefreshAction)
    ensures
        (cache_state(*final(cache)), action) == step_spec(cache_state(*old(cache)), event),
{
    match event {
        RefreshEvent::Updated { previous, current } => {
            if previous.same_as(&current) {
                RefreshAction::Wait
            } else {
                RefreshAction::ListFiles
            }
        },
        RefreshEvent::Listed(Ok(ws)) => {
            *cache = WritingCache::new(ws);
            RefreshAction::Wait
        },
        RefreshEvent::Listed(Err(err)) => RefreshAction::Warn(err),
    }
}

/// A whole tick: the update, then, when the step asks for it, the listing
/// (`listing` is what listing the files gives).
pub open spec fn tick_spec(
    c: (Seq<Writing>, Seq<Seq<char>>),
    previous: CommitRef,
    current: CommitRef,
    listing: Result<Vec<Writing>, Error>,
) -> (Seq<Writing>, Seq<Seq<char>>) {
    let (c1, a1) = step_spec(c, RefreshEvent::Updated { previous, current });
    if a1 is ListFiles {
        step_spec(c1, RefreshEvent::Listed(listing)).0
    } else {
        c1
    }
}

/// After a tick the cache holds exactly the listed writings, with their
/// tags, when the repository moved to another commit and the listing
/// succeeded; otherwise it is left as it was.
pub proof fn lemma_tick(
    c: (Seq<Writing>, Seq<Seq<char>>),
    previous: CommitRef,
    current: CommitRef,
    listing: Result<Vec<Writing>, Error>,
)
    ensures
        !same_commit(previous, current) && listing is Ok ==> tick_spec(c, previous, current, listing)
            == (listing->Ok_0@, cache_tags(listing->Ok_0@)),
        !(!same_commit(previous, current) && listing is Ok) ==> tick_spec(
            c,
            previous,
            current,
            listing,
        ) == c,
{
}

} // verus!
