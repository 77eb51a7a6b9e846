//! The removal of what the WebDAV folder holds.
//!
//! The caller sends the requests and hands the replies back. A failure to remove one
//! entry does not keep the others from being removed.
use vstd::prelude::*;

use crate::error::{Fault, SyncError};
use crate::text::{same_text, views};
use crate::webdav::{
    address, entry_views, pair_views, removal_failure, top_level, valid_reply, valid_status,
    CleanupOutcome, Method, Reply, ReplyView, Request, RequestView, WebDav, WebDavView,
};

verus! {

/// A cleanup that waits for a reply: the entries that are removed, each with whether it
/// is a folder, the one that is being removed, and what came of those before.
pub struct Cleanup {
    entries: Vec<(String, bool)>,
    at: usize,
    outcome: CleanupOutcome,
}

/// What a [`Cleanup`] says.
#[verifier::ext_equal]
pub struct CleanupView {
    pub entries: Seq<(Seq<char>, bool)>,
    pub at: int,
    pub removed: Seq<Seq<char>>,
    pub failed: Seq<(Seq<char>, Seq<char>)>,
}

impl View for Cleanup {
    type V = CleanupView;

    closed spec fn view(&self) -> CleanupView {
        CleanupView {
            entries: entry_views(self.entries@),
            at: self.at as int,
            removed: views(self.outcome.removed@),
            failed: pair_views(self.outcome.failed@),
        }
    }
}

impl Cleanup {
    /// The cleanup waits for the removal of one of its entries.
    pub open spec fn wf(&self) -> bool {
        0 <= self@.at < self@.entries.len()
    }
}

/// How a cleanup goes on.
pub enum CleanupStep {
    /// A request has to be sent.
    Send(Cleanup, Request),
    /// The removal of every entry was tried.
    Done(CleanupOutcome),
    /// The cleanup cannot go on.
    Failed(SyncError),
}

/// What a [`CleanupStep`] says.
#[verifier::ext_equal]
pub enum CleanupStepView {
    Send(CleanupView, RequestView),
    Done(Seq<Seq<char>>, Seq<(Seq<char>, Seq<char>)>),
    Failed(Fault),
}

impl View for CleanupStep {
    type V = CleanupStepView;

    open spec fn view(&self) -> CleanupStepView {
        match self {
            CleanupStep::Send(cleanup, request) => CleanupStepView::Send(cleanup@, request@),
            CleanupStep::Done(outcome) => CleanupStepView::Done(
                views(outcome.removed@),
                pair_views(outcome.failed@),
            ),
            CleanupStep::Failed(e) => CleanupStepView::Failed(e@),
        }
    }
}

impl CleanupStep {
    /// A cleanup that goes on waits for one of its entries.
    pub open spec fn wf(&self) -> bool {
        self matches CleanupStep::Send(cleanup, _) ==> cleanup.wf()
    }
}

/// The entries that are not kept, in their order.
pub open spec fn unkept(entries: Seq<(Seq<char>, bool)>, keep: Seq<Seq<char>>) -> Seq<
    (Seq<char>, bool),
> {
    entries.filter(|entry: (Seq<char>, bool)| !keep.contains(entry.0))
}

/// A cleanup that has not removed anything yet.
pub open spec fn begun(entries: Seq<(Seq<char>, bool)>) -> CleanupView {
    CleanupView { entries, at: 0, removed: Seq::empty(), failed: Seq::empty() }
}

/// The request that removes an entry.
pub open spec fn removal(dav: WebDavView, entry: (Seq<char>, bool)) -> Result<RequestView, Fault> {
    match address(dav.root, entry.0, entry.1) {
        Ok(uri) => Ok(
            RequestView { method: Method::Delete, uri, depth: None, body: Seq::empty() },
        ),
        Err(fault) => Err(fault),
    }
}

/// The next step of a cleanup.
pub open spec fn next_removal(dav: WebDavView, cleanup: CleanupView) -> CleanupStepView {
    if cleanup.at >= cleanup.entries.len() {
        CleanupStepView::Done(cleanup.removed, cleanup.failed)
    } else {
        match removal(dav, cleanup.entries[cleanup.at]) {
            Ok(request) => CleanupStepView::Send(cleanup, request),
            Err(fault) => CleanupStepView::Failed(fault),
        }
    }
}

/// The cleanup after the reply to its request.
pub open spec fn recorded(cleanup: CleanupView, reply: ReplyView) -> CleanupView {
    let name = cleanup.entries[cleanup.at].0;
    match removal_failure(reply) {
        None => CleanupView {
            at: cleanup.at + 1,
            removed: cleanup.removed.push(name),
            ..cleanup
        },
        Some(why) => CleanupView {
            at: cleanup.at + 1,
            failed: cleanup.failed.push((name, why)),
            ..cleanup
        },
    }
}

/// How a cleanup starts after the answer to the listing of the WebDAV folder.
pub open spec fn cleaned(
    dav: WebDavView,
    keep: Seq<Seq<char>>,
    separator: char,
    status: u16,
    body: Seq<u8>,
) -> CleanupStepView {
    match top_level(dav, separator, status, body) {
        Ok(entries) => next_removal(dav, begun(unkept(entries, keep))),
        Err(fault) => CleanupStepView::Failed(fault),
    }
}

fn contains_text(list: &Vec<String>, text: &str) -> (res: bool)
    ensures
        res == views(list@).contains(text@),
{
    let ghost all = views(list@);
    let mut i: usize = 0;
    while i < list.len()
        invariant
            i <= list@.len(),
            all == views(list@),
            forall|j: int| 0 <= j < i ==> all[j] != text@,
        decreases list@.len() - i,
    {
        assert(all[i as int] == list@[i as int]@);
        if same_text(list[i].as_str(), text) {
            assert(all.contains(text@));
            return true;
        }
        i = i + 1;
    }
    assert forall|j: int| 0 <= j < all.len() implies all[j] != text@ by {}
    false
}

/// Leaves out the entries that are kept.
pub fn leave_out(entries: Vec<(String, bool)>, keep: &Vec<String>) -> (res: Vec<(String, bool)>)
    ensures
        entry_views(res@) == unkept(entry_views(entries@), views(keep@)),
{
    let ghost all = entry_views(entries@);
    let ghost test = |entry: (Seq<char>, bool)| !views(keep@).contains(entry.0);
    let mut res: Vec<(String, bool)> = Vec::new();
    proof {
        assert(all.take(0).filter(test) =~= Seq::empty()) by {
            reveal(Seq::filter);
        }
        assert(entry_views(res@) =~= all.take(0).filter(test));
    }
    let mut i: usize = 0;
    while i < entries.len()
        invariant
            i <= entries@.len(),
            all == entry_views(entries@),
            test == (|entry: (Seq<char>, bool)| !views(keep@).contains(entry.0)),
            entry_views(res@) == all.take(i as int).filter(test),
        decreases entries@.len() - i,
    {
        let entry = &entries[i];
        proof {
            reveal(Seq::filter);
            assert(all[i as int] == (entry.0@, entry.1));
            assert(all.take(i + 1).drop_last() =~= all.take(i as int));
            assert(all.take(i + 1).last() == all[i as int]);
        }
        if !contains_text(keep, entry.0.as_str()) {
            let ghost before = res@;
            let ghost shown = (entry.0@, entry.1);
            res.push((entry.0.clone(), entry.1));
            assert(entry_views(res@) =~= entry_views(before).push(shown));
        }
        i = i + 1;
    }
    assert(all.take(i as int) =~= all);
    res
}

impl WebDav {
    /// Starts to remove everything from the WebDAV folder but what is kept, after the
    /// answer to the folder's listing.
    pub fn cleanup_except(
        &self,
        keep: &Vec<String>,
        separator: char,
        status: u16,
        body: &Vec<u8>,
    ) -> (res: CleanupStep)
        requires
            valid_status(status),
        ensures
            res.wf(),
            res@ == cleaned(self@, views(keep@), separator, status, body@),
    {
        match self.list_top_level(status, body, separator) {
            Ok(entries) => self.next_removal(
                Cleanup { entries: leave_out(entries, keep), at: 0, outcome: CleanupOutcome::new() },
            ),
            Err(e) => CleanupStep::Failed(e),
        }
    }

    /// Goes on with the entry that comes next.
    fn next_removal(&self, cleanup: Cleanup) -> (res: CleanupStep)
        requires
            cleanup@.at >= 0,
        ensures
            res.wf(),
            res@ == next_removal(self@, cleanup@),
    {
        if cleanup.at >= cleanup.entries.len() {
            return CleanupStep::Done(cleanup.outcome);
        }
        let entry = &cleanup.entries[cleanup.at];
        assert(cleanup@.entries[cleanup.at as int] == (entry.0@, entry.1));
        match self.request(Method::Delete, entry.0.as_str(), entry.1) {
            Ok(request) => CleanupStep::Send(cleanup, request),
            Err(e) => CleanupStep::Failed(e),
        }
    }

    /// Goes on after the reply to the request that removes an entry.
    pub fn resume_cleanup(&self, cleanup: Cleanup, reply: &Reply) -> (res: CleanupStep)
        requires
            cleanup.wf(),
            valid_reply(reply@),
        ensures
            res.wf(),
            res@ == next_removal(self@, recorded(cleanup@, reply@)),
    {
        let ghost before = cleanup@;
        let mut cleanup = cleanup;
        let name = cleanup.entries[cleanup.at].0.clone();
        assert(cleanup.at < cleanup.entries.len());
        assert(before.entries[before.at].0 == name@);
        cleanup.outcome.record(name, reply);
        cleanup.at = cleanup.at + 1;
        assert(cleanup@ =~= recorded(before, reply@));
        self.next_removal(cleanup)
    }
}

/// The names of the entries that were removed, by the replies to their requests.
pub open spec fn removed_names(
    entries: Seq<(Seq<char>, bool)>,
    replies: Seq<ReplyView>,
) -> Seq<Seq<char>>
    decreases replies.len(),
{
    if replies.len() == 0 {
        Seq::empty()
    } else {
        let before = removed_names(entries, replies.drop_last());
        match removal_failure(replies.last()) {
            None => before.push(entries[replies.len() - 1].0),
            Some(_) => before,
        }
    }
}

/// The names of the entries that could not be removed, with the reasons, by the replies
/// to their requests.
pub open spec fn failed_names(
    entries: Seq<(Seq<char>, bool)>,
    replies: Seq<ReplyView>,
) -> Seq<(Seq<char>, Seq<char>)>
    decreases replies.len(),
{
    if replies.len() == 0 {
        Seq::empty()
    } else {
        let before = failed_names(entries, replies.drop_last());
        match removal_failure(replies.last()) {
            None => before,
            Some(why) => before.push((entries[replies.len() - 1].0, why)),
        }
    }
}

/// The step that a cleanup reaches after the given replies to its requests.
pub open spec fn after_replies(
    dav: WebDavView,
    start: CleanupStepView,
    replies: Seq<ReplyView>,
) -> CleanupStepView
    decreases replies.len(),
{
    if replies.len() == 0 {
        start
    } else {
        match after_replies(dav, start, replies.drop_last()) {
            CleanupStepView::Send(cleanup, _) => next_removal(
                dav,
                recorded(cleanup, replies.last()),
            ),
            other => other,
        }
    }
}

/// A cleanup asks for the removal of each entry that is not kept, in their order and
/// whatever the replies are; at the end it tells which were removed and which were not.
pub proof fn law_every_entry_but_the_kept_is_removed(
    dav: WebDavView,
    entries: Seq<(Seq<char>, bool)>,
    keep: Seq<Seq<char>>,
    replies: Seq<ReplyView>,
)
    requires
        forall|i: int|
            0 <= i < unkept(entries, keep).len() ==> removal(
                dav,
                #[trigger] unkept(entries, keep)[i],
            ) is Ok,
        replies.len() <= unkept(entries, keep).len(),
    ensures
        ({
            let doomed = unkept(entries, keep);
            let (removed, failed) = (removed_names(doomed, replies), failed_names(doomed, replies));
            let n = replies.len() as int;
            after_replies(dav, next_removal(dav, begun(doomed)), replies) == if n < doomed.len() {
                CleanupStepView::Send(
                    CleanupView { entries: doomed, at: n, removed, failed },
                    removal(dav, doomed[n])->Ok_0,
                )
            } else {
                CleanupStepView::Done(removed, failed)
            }
        }),
    decreases replies.len(),
{
    let doomed = unkept(entries, keep);
    let n = replies.len() as int;
    if n < doomed.len() {
        assert(removal(dav, doomed[n]) is Ok);
    }
    if n > 0 {
        law_every_entry_but_the_kept_is_removed(dav, entries, keep, replies.drop_last());
    }
}

/// The entries that are not kept are those of the listing whose names are not kept.
proof fn lemma_unkept(entries: Seq<(Seq<char>, bool)>, keep: Seq<Seq<char>>)
    ensures
        forall|i: int|
            0 <= i < unkept(entries, keep).len() ==> !keep.contains(
                (#[trigger] unkept(entries, keep)[i]).0,
            ) && entries.contains(unkept(entries, keep)[i]),
        forall|e: int|
            0 <= e < entries.len() && !keep.contains((#[trigger] entries[e]).0) ==> unkept(
                entries,
                keep,
            ).contains(entries[e]),
    decreases entries.len(),
{
    reveal(Seq::filter);
    if entries.len() > 0 {
        let init = entries.drop_last();
        lemma_unkept(init, keep);
        let (all, before) = (unkept(entries, keep), unkept(init, keep));
        assert forall|i: int| 0 <= i < all.len() implies !keep.contains((#[trigger] all[i]).0)
            && entries.contains(all[i]) by {
            if i < before.len() {
                assert(all[i] == before[i]);
                let e = choose|e: int| 0 <= e < init.len() && init[e] == before[i];
                assert(entries[e] == all[i]);
            } else {
                assert(all[i] == entries[entries.len() - 1]);
            }
        }
        assert forall|e: int|
            0 <= e < entries.len() && !keep.contains((#[trigger] entries[e]).0) implies all.contains(
            entries[e],
        ) by {
            if e < init.len() {
                assert(init[e] == entries[e]);
                let i = choose|i: int| 0 <= i < before.len() && before[i] == entries[e];
                assert(all[i] == entries[e]);
            } else {
                assert(all[all.len() - 1] == entries[e]);
            }
        }
    }
}

/// What is told of the entries that were replied to.
proof fn lemma_told(entries: Seq<(Seq<char>, bool)>, replies: Seq<ReplyView>)
    requires
        replies.len() <= entries.len(),
    ensures
        ({
            let removed = removed_names(entries, replies);
            let failed = failed_names(entries, replies);
            &&& removed.len() + failed.len() == replies.len()
            &&& forall|i: int|
                0 <= i < replies.len() ==> match removal_failure(replies[i]) {
                    None => removed.contains((#[trigger] entries[i]).0),
                    Some(why) => failed.contains((entries[i].0, why)),
                }
            &&& forall|k: int|
                0 <= k < removed.len() ==> exists|i: int|
                    0 <= i < replies.len() && #[trigger] entries[i].0 == #[trigger] removed[k]
                        && removal_failure(replies[i]) is None
            &&& forall|k: int|
                0 <= k < failed.len() ==> exists|i: int|
                    0 <= i < replies.len() && #[trigger] entries[i].0 == (#[trigger] failed[k]).0
                        && removal_failure(replies[i]) == Some(failed[k].1)
        }),
    decreases replies.len(),
{
    if replies.len() > 0 {
        let init = replies.drop_last();
        let last = replies.len() - 1;
        lemma_told(entries, init);
        let (removed, failed) = (removed_names(entries, replies), failed_names(entries, replies));
        let (gone, left) = (removed_names(entries, init), failed_names(entries, init));
        assert forall|i: int| 0 <= i < replies.len() implies match removal_failure(replies[i]) {
            None => removed.contains((#[trigger] entries[i]).0),
            Some(why) => failed.contains((entries[i].0, why)),
        } by {
            if i < last {
                assert(init[i] == replies[i]);
                match removal_failure(replies[i]) {
                    None => {
                        let k = choose|k: int| 0 <= k < gone.len() && gone[k] == entries[i].0;
                        assert(removed[k] == entries[i].0);
                    },
                    Some(why) => {
                        let k = choose|k: int|
                            0 <= k < left.len() && left[k] == (entries[i].0, why);
                        assert(failed[k] == (entries[i].0, why));
                    },
                }
            } else {
                match removal_failure(replies[i]) {
                    None => assert(removed[removed.len() - 1] == entries[i].0),
                    Some(why) => assert(failed[failed.len() - 1] == (entries[i].0, why)),
                }
            }
        }
        assert forall|k: int| 0 <= k < removed.len() implies exists|i: int|
            0 <= i < replies.len() && #[trigger] entries[i].0 == #[trigger] removed[k]
                && removal_failure(replies[i]) is None by {
            if k < gone.len() {
                assert(removed[k] == gone[k]);
                let i = choose|i: int|
                    0 <= i < init.len() && #[trigger] entries[i].0 == gone[k] && removal_failure(
                        init[i],
                    ) is None;
                assert(init[i] == replies[i]);
                assert(entries[i].0 == removed[k]);
            } else {
                assert(entries[last].0 == removed[k]);
            }
        }
        assert forall|k: int| 0 <= k < failed.len() implies exists|i: int|
            0 <= i < replies.len() && #[trigger] entries[i].0 == (#[trigger] failed[k]).0
                && removal_failure(replies[i]) == Some(failed[k].1) by {
            if k < left.len() {
                assert(failed[k] == left[k]);
                let i = choose|i: int|
                    0 <= i < init.len() && #[trigger] entries[i].0 == left[k].0
                        && removal_failure(init[i]) == Some(left[k].1);
                assert(init[i] == replies[i]);
                assert(entries[i].0 == failed[k].0);
            } else {
                assert(entries[last].0 == failed[k].0);
            }
        }
    }
}

/// The outcome of a cleanup tells of the name.
pub open spec fn told_of(
    removed: Seq<Seq<char>>,
    failed: Seq<(Seq<char>, Seq<char>)>,
    name: Seq<char>,
) -> bool {
    removed.contains(name) || exists|k: int| 0 <= k < failed.len() && (#[trigger] failed[k]).0 == name
}

/// The outcome tells of every entry that is not kept, once for each request: as removed
/// where the reply says that it is gone, else as failed with the reason that the reply
/// gives. It tells of nothing else.
pub proof fn law_every_entry_is_told(
    entries: Seq<(Seq<char>, bool)>,
    keep: Seq<Seq<char>>,
    replies: Seq<ReplyView>,
)
    requires
        replies.len() == unkept(entries, keep).len(),
    ensures
        ({
            let doomed = unkept(entries, keep);
            let (removed, failed) = (removed_names(doomed, replies), failed_names(doomed, replies));
            &&& removed.len() + failed.len() == doomed.len()
            &&& forall|i: int|
                0 <= i < doomed.len() ==> match removal_failure(replies[i]) {
                    None => removed.contains((#[trigger] doomed[i]).0),
                    Some(why) => failed.contains((doomed[i].0, why)),
                }
            &&& forall|e: int|
                0 <= e < entries.len() ==> (told_of(removed, failed, (#[trigger] entries[e]).0)
                    <==> !keep.contains(entries[e].0))
            &&& forall|name: Seq<char>| #[trigger]
                told_of(removed, failed, name) ==> exists|e: int|
                    0 <= e < entries.len() && (#[trigger] entries[e]).0 == name
        }),
{
    let doomed = unkept(entries, keep);
    let (removed, failed) = (removed_names(doomed, replies), failed_names(doomed, replies));
    lemma_told(doomed, replies);
    lemma_unkept(entries, keep);
    assert forall|name: Seq<char>| #[trigger] told_of(removed, failed, name) implies !keep.contains(
        name,
    ) && exists|e: int| 0 <= e < entries.len() && (#[trigger] entries[e]).0 == name by {
        let i = lemma_told_entry(doomed, replies, name);
        assert(entries.contains(doomed[i]));
        let e = choose|e: int| 0 <= e < entries.len() && entries[e] == doomed[i];
        assert(entries[e].0 == name);
    }
    assert forall|e: int| 0 <= e < entries.len() implies (told_of(
        removed,
        failed,
        (#[trigger] entries[e]).0,
    ) <==> !keep.contains(entries[e].0)) by {
        if !keep.contains(entries[e].0) {
            let i = choose|i: int| 0 <= i < doomed.len() && doomed[i] == entries[e];
            if let Some(why) = removal_failure(replies[i]) {
                assert(failed.contains((doomed[i].0, why)));
                let k = choose|k: int| 0 <= k < failed.len() && failed[k] == (doomed[i].0, why);
                assert(failed[k].0 == entries[e].0);
            } else {
                assert(removed.contains(doomed[i].0));
            }
        }
    }
}

/// The entry that is told of by its name.
proof fn lemma_told_entry(
    entries: Seq<(Seq<char>, bool)>,
    replies: Seq<ReplyView>,
    name: Seq<char>,
) -> (i: int)
    requires
        replies.len() <= entries.len(),
        told_of(removed_names(entries, replies), failed_names(entries, replies), name),
    ensures
        0 <= i < replies.len(),
        entries[i].0 == name,
{
    lemma_told(entries, replies);
    let removed = removed_names(entries, replies);
    let failed = failed_names(entries, replies);
    if removed.contains(name) {
        let k = choose|k: int| 0 <= k < removed.len() && removed[k] == name;
        choose|i: int|
            0 <= i < replies.len() && #[trigger] entries[i].0 == removed[k] && removal_failure(
                replies[i],
            ) is None
    } else {
        let k = choose|k: int| 0 <= k < failed.len() && (#[trigger] failed[k]).0 == name;
        choose|i: int|
            0 <= i < replies.len() && #[trigger] entries[i].0 == failed[k].0 && removal_failure(
                replies[i],
            ) == Some(failed[k].1)
    }
}

/// An entry counts as removed if the server has removed it or does not know it, and as
/// failed with the reason otherwise; nothing that was recorded before is lost.
pub proof fn law_replies_are_recorded(
    cleanup: CleanupView,
    status: u16,
    body: Seq<u8>,
    why: Seq<char>,
)
    requires
        0 <= cleanup.at < cleanup.entries.len(),
    ensures
        ({
            let name = cleanup.entries[cleanup.at].0;
            let told = recorded(cleanup, ReplyView::Answer(status, body));
            let lost = recorded(cleanup, ReplyView::Lost(why));
            &&& told.at == cleanup.at + 1 && told.entries == cleanup.entries
            &&& lost.at == cleanup.at + 1 && lost.entries == cleanup.entries
            &&& 200 <= status <= 299 || status == 404 ==> told.removed == cleanup.removed.push(name)
                && told.failed == cleanup.failed
            &&& !(200 <= status <= 299 || status == 404) ==> told.removed == cleanup.removed
                && told.failed.len() == cleanup.failed.len() + 1 && told.failed.drop_last()
                == cleanup.failed && told.failed.last().0 == name
            &&& lost.removed == cleanup.removed
            &&& lost.failed == cleanup.failed.push((name, why))
        }),
{
    let told = recorded(cleanup, ReplyView::Answer(status, body));
    if told.failed.len() > cleanup.failed.len() {
        assert(told.failed.drop_last() =~= cleanup.failed);
    }
}

/// Each entry is removed by one request for its deletion, with a slash behind the address
/// of a folder.
pub proof fn law_removal_asks_for_deletion(dav: WebDavView, entry: (Seq<char>, bool))
    requires
        removal(dav, entry) is Ok,
    ensures
        ({
            let sent = removal(dav, entry)->Ok_0;
            &&& sent.method is Delete
            &&& sent.depth is None
            &&& sent.body.len() == 0
            &&& address(dav.root, entry.0, entry.1) == Ok::<Seq<char>, Fault>(sent.uri)
        }),
{
}

/// A cleanup starts with the first entry of the folder whose name is not kept, and goes on
/// with just these entries. If there is none it is done, and if the folder cannot be listed
/// it fails with the reason.
pub proof fn law_cleanup_starts_with_what_is_not_kept(
    dav: WebDavView,
    keep: Seq<Seq<char>>,
    separator: char,
    status: u16,
    body: Seq<u8>,
)
    ensures
        top_level(dav, separator, status, body) matches Err(fault) ==> cleaned(
            dav,
            keep,
            separator,
            status,
            body,
        ) == CleanupStepView::Failed(fault),
        top_level(dav, separator, status, body) matches Ok(entries) ==> match cleaned(
            dav,
            keep,
            separator,
            status,
            body,
        ) {
            CleanupStepView::Send(cleanup, request) => {
                &&& cleanup.at == 0 && cleanup.removed.len() == 0 && cleanup.failed.len() == 0
                &&& forall|entry: (Seq<char>, bool)| #[trigger]
                    cleanup.entries.contains(entry) <==> entries.contains(entry) && !keep.contains(
                        entry.0,
                    )
                &&& cleanup.entries.len() > 0
                &&& removal(dav, cleanup.entries[0]) == Ok::<RequestView, Fault>(request)
            },
            CleanupStepView::Done(removed, failed) => removed.len() == 0 && failed.len() == 0
                && forall|i: int|
                0 <= i < entries.len() ==> keep.contains((#[trigger] entries[i]).0),
            CleanupStepView::Failed(fault) => exists|i: int|
                0 <= i < entries.len() && !keep.contains((#[trigger] entries[i]).0) && removal(
                    dav,
                    entries[i],
                ) == Err::<RequestView, Fault>(fault),
        },
{
    if let Ok(entries) = top_level(dav, separator, status, body) {
        lemma_unkept(entries, keep);
        let doomed = unkept(entries, keep);
        assert forall|entry: (Seq<char>, bool)| #[trigger] doomed.contains(entry)
            <==> entries.contains(entry) && !keep.contains(entry.0) by {
            if doomed.contains(entry) {
                let i = choose|i: int| 0 <= i < doomed.len() && doomed[i] == entry;
                assert(!keep.contains(doomed[i].0));
            }
            if entries.contains(entry) && !keep.contains(entry.0) {
                let e = choose|e: int| 0 <= e < entries.len() && entries[e] == entry;
                assert(!keep.contains(entries[e].0));
            }
        }
        if doomed.len() > 0 {
            assert(doomed.contains(doomed[0]));
            let i = choose|i: int| 0 <= i < entries.len() && entries[i] == doomed[0];
            assert(!keep.contains(entries[i].0));
        } else {
            assert forall|i: int| 0 <= i < entries.len() implies keep.contains(
                (#[trigger] entries[i]).0,
            ) by {
                if !keep.contains(entries[i].0) {
                    assert(doomed.contains(entries[i]));
                }
            }
        }
    }
}

} // verus!
