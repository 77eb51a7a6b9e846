//! The recursive listing of the WebDAV folder.
//!
//! The walk asks for one folder at a time. The caller sends the request and hands the
//! answer back.
use vstd::prelude::*;

use crate::encoding::{lossy_text, shown_text};
use crate::error::{Fault, SyncError};
use crate::listing::{listed_views, listing, parse_listing, Listed, ListedView};
use crate::text::{same_text, strip_end, strip_text_end};
use crate::webdav::{
    check_status, date_seconds, http_date, listed_name, remote_views, status_fault, valid_status,
    RemoteFile, RemoteFileView, WebDav, WebDavView,
};

verus! {

/// An entry of a listing that is still to be looked at, with the folder that was listed.
pub struct Pending {
    pub dir: String,
    pub entry: Listed,
}

/// What a [`Pending`] says.
pub struct PendingView {
    pub dir: Seq<char>,
    pub entry: ListedView,
}

impl View for Pending {
    type V = PendingView;

    open spec fn view(&self) -> PendingView {
        PendingView { dir: self.dir@, entry: self.entry@ }
    }
}

/// What a list of entries says.
pub open spec fn pending_views(list: Seq<Pending>) -> Seq<PendingView> {
    list.map_values(|pending: Pending| pending@)
}

/// A walk: the entries still to be looked at, the next one last, and the files found.
pub struct Walk {
    pub separator: char,
    pub pending: Vec<Pending>,
    pub found: Vec<RemoteFile>,
}

/// What a [`Walk`] says.
#[verifier::ext_equal]
pub struct WalkView {
    pub separator: char,
    pub pending: Seq<PendingView>,
    pub found: Seq<RemoteFileView>,
}

impl View for Walk {
    type V = WalkView;

    open spec fn view(&self) -> WalkView {
        WalkView {
            separator: self.separator,
            pending: pending_views(self.pending@),
            found: remote_views(self.found@),
        }
    }
}

/// How a walk goes on.
pub enum WalkStep {
    /// A folder has to be listed.
    List(Walk, String),
    /// All files were found.
    Done(Vec<RemoteFile>),
    /// The walk cannot go on.
    Failed(SyncError),
}

/// What a [`WalkStep`] says.
#[verifier::ext_equal]
pub enum WalkStepView {
    List(WalkView, Seq<char>),
    Done(Seq<RemoteFileView>),
    Failed(Fault),
}

impl View for WalkStep {
    type V = WalkStepView;

    open spec fn view(&self) -> WalkStepView {
        match self {
            WalkStep::List(walk, dir) => WalkStepView::List(walk@, dir@),
            WalkStep::Done(files) => WalkStepView::Done(remote_views(files@)),
            WalkStep::Failed(e) => WalkStepView::Failed(e@),
        }
    }
}

/// What an entry of a listing turns out to be.
#[derive(Debug, PartialEq, Eq)]
pub enum Placed {
    /// The folder that was listed, or the WebDAV folder itself.
    Skipped,
    /// A folder, by its path without a slash at the end.
    Folder(String),
    /// A file.
    File(RemoteFile),
}

/// What a [`Placed`] says.
pub enum PlacedView {
    Skipped,
    Folder(Seq<char>),
    File(RemoteFileView),
}

impl View for Placed {
    type V = PlacedView;

    open spec fn view(&self) -> PlacedView {
        match self {
            Placed::Skipped => PlacedView::Skipped,
            Placed::Folder(path) => PlacedView::Folder(path@),
            Placed::File(file) => PlacedView::File(file@),
        }
    }
}

/// What an entry in the listing of `dir` turns out to be, by its path and its time.
pub open spec fn placed(
    dir: Seq<char>,
    collection: bool,
    name: Seq<char>,
    modified: Option<u64>,
) -> PlacedView {
    if name.len() == 0 || strip_end(name, '/') == strip_end(dir, '/') {
        PlacedView::Skipped
    } else if collection {
        PlacedView::Folder(strip_end(name, '/'))
    } else {
        PlacedView::File(RemoteFileView { relative: name, modified })
    }
}

/// Decides what an entry in the listing of `dir` is, by its path and its time.
pub fn place(dir: &str, collection: bool, name: String, modified: Option<u64>) -> (res: Placed)
    ensures
        res@ == placed(dir@, collection, name@, modified),
{
    let trimmed = strip_text_end(name.as_str(), '/');
    let listed = strip_text_end(dir, '/');
    if name.as_str().is_empty() || same_text(trimmed.as_str(), listed.as_str()) {
        Placed::Skipped
    } else if collection {
        Placed::Folder(trimmed)
    } else {
        Placed::File(RemoteFile { relative: name, modified })
    }
}

/// How a walk goes on by itself: entries that are files are found, the entry of the
/// listed folder itself is passed over, and the first folder has to be listed.
pub open spec fn walked(dav: WebDavView, walk: WalkView) -> WalkStepView
    decreases walk.pending.len(),
{
    if walk.pending.len() == 0 {
        WalkStepView::Done(walk.found)
    } else {
        let next = walk.pending.last();
        let rest = WalkView { pending: walk.pending.drop_last(), ..walk };
        match listed_name(dav, next.entry.href, walk.separator) {
            Err(fault) => WalkStepView::Failed(fault),
            Ok(name) => match placed(
                next.dir,
                next.entry.collection,
                name,
                date_seconds(next.entry.modified),
            ) {
                PlacedView::Skipped => walked(dav, rest),
                PlacedView::Folder(path) => WalkStepView::List(rest, path),
                PlacedView::File(file) => walked(
                    dav,
                    WalkView { found: rest.found.push(file), ..rest },
                ),
            },
        }
    }
}

/// The entries of a folder's listing, to be looked at in their order.
pub open spec fn stacked(dir: Seq<char>, list: Seq<ListedView>) -> Seq<PendingView> {
    Seq::new(list.len(), |i: int| PendingView { dir, entry: list[list.len() - 1 - i] })
}

/// How a walk goes on after the answer to the listing of a folder. A folder that is not
/// there is empty.
pub open spec fn resumed(
    dav: WebDavView,
    walk: WalkView,
    dir: Seq<char>,
    status: u16,
    body: Seq<u8>,
) -> WalkStepView {
    if status == 404 {
        walked(dav, walk)
    } else {
        match status_fault(status, "列出 WebDAV"@) {
            Some(fault) => WalkStepView::Failed(fault),
            None => match listing(shown_text(body)) {
                Err(fault) => WalkStepView::Failed(fault),
                Ok(list) => walked(
                    dav,
                    WalkView { pending: walk.pending + stacked(dir, list), ..walk },
                ),
            },
        }
    }
}

impl WebDav {
    /// Starts a walk through the whole folder.
    pub fn list_recursive(&self, separator: char) -> (res: WalkStep)
        ensures
            res@ == WalkStepView::List(
                (WalkView { separator, pending: Seq::empty(), found: Seq::empty() }),
                Seq::empty(),
            ),
    {
        let walk = Walk { separator, pending: Vec::new(), found: Vec::new() };
        assert(walk@.pending =~= Seq::<PendingView>::empty());
        assert(walk@.found =~= Seq::<RemoteFileView>::empty());
        let dir = String::new();
        assert(dir@ =~= Seq::<char>::empty());
        WalkStep::List(walk, dir)
    }

    /// Goes on until a folder has to be listed, or to the end.
    pub fn walk(&self, walk: Walk) -> (res: WalkStep)
        ensures
            res@ == walked(self@, walk@),
    {
        let ghost start = walk@;
        let separator = walk.separator;
        let mut pending = walk.pending;
        let mut found = walk.found;
        while pending.len() > 0
            invariant
                start == walk@,
                separator == start.separator,
                walked(self@, start) == walked(
                    self@,
                    (WalkView {
                        separator,
                        pending: pending_views(pending@),
                        found: remote_views(found@),
                    }),
                ),
            decreases pending@.len(),
        {
            let ghost before = pending_views(pending@);
            let next = pending.pop().unwrap();
            assert(before.last() == next@);
            assert(before.drop_last() =~= pending_views(pending@));
            let name = match self.relative_from_href(next.entry.href.as_str(), separator) {
                Ok(name) => name,
                Err(e) => {
                    return WalkStep::Failed(e);
                },
            };
            let modified = match &next.entry.modified {
                Some(date) => http_date(date.as_str()),
                None => None,
            };
            match place(next.dir.as_str(), next.entry.collection, name, modified) {
                Placed::Skipped => {},
                Placed::Folder(path) => {
                    return WalkStep::List(Walk { separator, pending, found }, path);
                },
                Placed::File(file) => {
                    let ghost files = found@;
                    let ghost shown = file@;
                    found.push(file);
                    assert(remote_views(found@) =~= remote_views(files).push(shown));
                },
            }
        }
        assert(pending_views(pending@) =~= Seq::<PendingView>::empty());
        WalkStep::Done(found)
    }

    /// Goes on after the answer to the listing of `dir`.
    pub fn resume(&self, walk: Walk, dir: &str, status: u16, body: &Vec<u8>) -> (res: WalkStep)
        requires
            valid_status(status),
        ensures
            res@ == resumed(self@, walk@, dir@, status, body@),
    {
        if status == 404 {
            return self.walk(walk);
        }
        match check_status(status, "列出 WebDAV") {
            Ok(_) => {},
            Err(e) => {
                return WalkStep::Failed(e);
            },
        }
        let text = lossy_text(body);
        let mut list = match parse_listing(text.as_str()) {
            Ok(list) => list,
            Err(e) => {
                return WalkStep::Failed(e);
            },
        };
        let ghost all = listed_views(list@);
        let ghost n = all.len();
        let ghost old_pending = pending_views(walk.pending@);
        let separator = walk.separator;
        let found = walk.found;
        let mut pending = walk.pending;
        assert(pending_views(pending@) =~= old_pending + stacked(dir@, all).take(0));
        while list.len() > 0
            invariant
                list@.len() <= n,
                n == all.len(),
                listed_views(list@) == all.take(list@.len() as int),
                pending_views(pending@) == old_pending + stacked(dir@, all).take(
                    n - list@.len(),
                ),
            decreases list@.len(),
        {
            let ghost k = list@.len() as int;
            let ghost before = pending@;
            let ghost entries = listed_views(list@);
            let entry = list.pop().unwrap();
            assert(entries.last() == entry@);
            assert(entry@ == all[k - 1]);
            assert(listed_views(list@) =~= entries.drop_last());
            assert(all.take(k).drop_last() =~= all.take(k - 1));
            let item = Pending { dir: dir.to_owned(), entry };
            let ghost shown = item@;
            pending.push(item);
            assert(pending_views(pending@) =~= pending_views(before).push(shown));
            assert(stacked(dir@, all)[n - k] == shown);
            assert(stacked(dir@, all).take(n - k + 1) =~= stacked(dir@, all).take(n - k).push(
                shown,
            ));
            assert(old_pending + stacked(dir@, all).take(n - k).push(shown) =~= (old_pending
                + stacked(dir@, all).take(n - k)).push(shown));
        }
        assert(stacked(dir@, all).take(n as int) =~= stacked(dir@, all));
        self.walk(Walk { separator, pending, found })
    }
}

/// What the answer to the listing of a folder says. A folder that is not there is empty.
pub open spec fn answered(answer: (u16, Seq<u8>)) -> Result<Seq<ListedView>, Fault> {
    if answer.0 == 404 {
        Ok(Seq::empty())
    } else {
        match status_fault(answer.0, "列出 WebDAV"@) {
            Some(fault) => Err(fault),
            None => listing(shown_text(answer.1)),
        }
    }
}

/// The step that is reached from `step` after `rounds` answers or fewer, where each folder
/// is answered as `answers` says.
pub open spec fn driven(
    dav: WebDavView,
    step: WalkStepView,
    answers: spec_fn(Seq<char>) -> (u16, Seq<u8>),
    rounds: nat,
) -> WalkStepView
    decreases rounds,
{
    match step {
        WalkStepView::List(walk, dir) if rounds > 0 => driven(
            dav,
            resumed(dav, walk, dir, answers(dir).0, answers(dir).1),
            answers,
            (rounds - 1) as nat,
        ),
        _ => step,
    }
}

/// What is found or has failed in a tree of folders; `None` for one that goes too deep.
pub type Harvest = Option<Result<Seq<RemoteFileView>, Fault>>;

/// What is found after the given files, or has failed.
pub open spec fn gathered(files: Seq<RemoteFileView>, later: Harvest) -> Harvest {
    match later {
        Some(Ok(more)) => Some(Ok(files + more)),
        _ => later,
    }
}

/// The files in and below the folder `dir`, which holds folders at most `depth - 1` deep:
/// those of its listing in their order, and in the place of a folder those in and below
/// it. The first fault counts.
pub open spec fn tree_files(
    dav: WebDavView,
    separator: char,
    dir: Seq<char>,
    answers: spec_fn(Seq<char>) -> (u16, Seq<u8>),
    depth: nat,
) -> Harvest
    decreases depth, 0nat,
{
    if depth == 0 {
        None
    } else {
        match answered(answers(dir)) {
            Err(fault) => Some(Err(fault)),
            Ok(list) => entry_files(dav, separator, dir, list, answers, (depth - 1) as nat),
        }
    }
}

/// The files that the given entries in the listing of `dir` stand for, as in
/// [`tree_files`].
pub open spec fn entry_files(
    dav: WebDavView,
    separator: char,
    dir: Seq<char>,
    list: Seq<ListedView>,
    answers: spec_fn(Seq<char>) -> (u16, Seq<u8>),
    depth: nat,
) -> Harvest
    decreases depth, list.len(),
{
    if list.len() == 0 {
        Some(Ok(Seq::empty()))
    } else {
        let later = entry_files(dav, separator, dir, list.skip(1), answers, depth);
        match listed_name(dav, list[0].href, separator) {
            Err(fault) => Some(Err(fault)),
            Ok(name) => match placed(
                dir,
                list[0].collection,
                name,
                date_seconds(list[0].modified),
            ) {
                PlacedView::Skipped => later,
                PlacedView::File(file) => gathered(seq![file], later),
                PlacedView::Folder(path) => match tree_files(dav, separator, path, answers, depth) {
                    Some(Ok(files)) => gathered(files, later),
                    other => other,
                },
            },
        }
    }
}

/// A walk through a tree of folders, then `rounds` answers more.
proof fn lemma_tree_is_walked(
    dav: WebDavView,
    walk: WalkView,
    dir: Seq<char>,
    answers: spec_fn(Seq<char>) -> (u16, Seq<u8>),
    depth: nat,
    rounds: nat,
) -> (res: nat)
    requires
        tree_files(dav, walk.separator, dir, answers, depth) is Some,
    ensures
        driven(dav, WalkStepView::List(walk, dir), answers, res) == match tree_files(
            dav,
            walk.separator,
            dir,
            answers,
            depth,
        )->Some_0 {
            Ok(files) => driven(
                dav,
                walked(dav, (WalkView { found: walk.found + files, ..walk })),
                answers,
                rounds,
            ),
            Err(fault) => WalkStepView::Failed(fault),
        },
    decreases depth, 0nat,
{
    reveal_with_fuel(driven, 2);
    match answered(answers(dir)) {
        Err(_) => rounds + 1,
        Ok(list) => {
            let next = WalkView { pending: walk.pending + stacked(dir, list), ..walk };
            assert(next.pending =~= walk.pending || list.len() > 0);
            assert(resumed(dav, walk, dir, answers(dir).0, answers(dir).1) == walked(dav, next));
            1 + lemma_entries_are_walked(
                dav,
                walk,
                dir,
                list,
                answers,
                (depth - 1) as nat,
                rounds,
            )
        },
    }
}

/// A walk through the entries of a listing, then `rounds` answers more.
#[verifier::rlimit(40)]
proof fn lemma_entries_are_walked(
    dav: WebDavView,
    walk: WalkView,
    dir: Seq<char>,
    list: Seq<ListedView>,
    answers: spec_fn(Seq<char>) -> (u16, Seq<u8>),
    depth: nat,
    rounds: nat,
) -> (res: nat)
    requires
        entry_files(dav, walk.separator, dir, list, answers, depth) is Some,
    ensures
        driven(
            dav,
            walked(dav, (WalkView { pending: walk.pending + stacked(dir, list), ..walk })),
            answers,
            res,
        ) == match entry_files(dav, walk.separator, dir, list, answers, depth)->Some_0 {
            Ok(files) => driven(
                dav,
                walked(dav, (WalkView { found: walk.found + files, ..walk })),
                answers,
                rounds,
            ),
            Err(fault) => WalkStepView::Failed(fault),
        },
    decreases depth, list.len(),
{
    let all = walk.pending + stacked(dir, list);
    if list.len() == 0 {
        assert(all =~= walk.pending);
        assert(walk.found + Seq::<RemoteFileView>::empty() =~= walk.found);
        rounds
    } else {
        let rest = list.skip(1);
        let left = walk.pending + stacked(dir, rest);
        assert(all.last() == PendingView { dir, entry: list[0] });
        assert(all.drop_last() =~= left);
        match listed_name(dav, list[0].href, walk.separator) {
            Err(_) => rounds,
            Ok(name) => match placed(
                dir,
                list[0].collection,
                name,
                date_seconds(list[0].modified),
            ) {
                PlacedView::Skipped => lemma_entries_are_walked(
                    dav,
                    walk,
                    dir,
                    rest,
                    answers,
                    depth,
                    rounds,
                ),
                PlacedView::File(file) => {
                    let next = WalkView { found: walk.found.push(file), ..walk };
                    lemma_gathered(
                        walk.found,
                        seq![file],
                        entry_files(dav, walk.separator, dir, rest, answers, depth),
                    );
                    assert(walk.found + seq![file] =~= next.found);
                    lemma_entries_are_walked(dav, next, dir, rest, answers, depth, rounds)
                },
                PlacedView::Folder(path) => {
                    let below = WalkView { pending: left, ..walk };
                    match tree_files(dav, walk.separator, path, answers, depth)->Some_0 {
                        Err(_) => lemma_tree_is_walked(dav, below, path, answers, depth, rounds),
                        Ok(files) => {
                            let next = WalkView { found: walk.found + files, ..walk };
                            lemma_gathered(
                                walk.found,
                                files,
                                entry_files(dav, walk.separator, dir, rest, answers, depth),
                            );
                            let more = lemma_entries_are_walked(
                                dav,
                                next,
                                dir,
                                rest,
                                answers,
                                depth,
                                rounds,
                            );
                            lemma_tree_is_walked(dav, below, path, answers, depth, more)
                        },
                    }
                },
            },
        }
    }
}

/// What is found comes in the order in which it was found.
proof fn lemma_gathered(
    before: Seq<RemoteFileView>,
    files: Seq<RemoteFileView>,
    later: Harvest,
)
    ensures
        gathered(files, later) matches Some(Ok(found)) ==> (later matches Some(Ok(more)) && before
            + found == before + files + more),
{
    if let Some(Ok(more)) = later {
        assert(before + (files + more) =~= before + files + more);
    }
}

/// The whole tree of folders is listed: whatever the server answers for each folder, a
/// walk ends with the files in and below the WebDAV folder, each folder's in the place of
/// the folder, or with the first fault on the way.
pub proof fn law_whole_tree_is_listed(
    dav: WebDavView,
    separator: char,
    answers: spec_fn(Seq<char>) -> (u16, Seq<u8>),
    depth: nat,
) -> (rounds: nat)
    requires
        tree_files(dav, separator, Seq::empty(), answers, depth) is Some,
    ensures
        driven(
            dav,
            WalkStepView::List(
                (WalkView { separator, pending: Seq::empty(), found: Seq::empty() }),
                Seq::empty(),
            ),
            answers,
            rounds,
        ) == match tree_files(dav, separator, Seq::empty(), answers, depth)->Some_0 {
            Ok(files) => WalkStepView::Done(files),
            Err(fault) => WalkStepView::Failed(fault),
        },
{
    let walk = WalkView { separator, pending: Seq::empty(), found: Seq::empty() };
    let rounds = lemma_tree_is_walked(dav, walk, Seq::empty(), answers, depth, 0);
    if let Some(Ok(files)) = tree_files(dav, separator, Seq::empty(), answers, depth) {
        assert(walk.found + files =~= files);
    }
    rounds
}

/// An entry of a listing other than the listed folder itself is a file with its whole name
/// and its time, or a folder with its name but for slashes at its end, whatever the name
/// is.
pub proof fn law_entries_are_files_or_folders(
    dir: Seq<char>,
    slashes: Seq<char>,
    name: Seq<char>,
    modified: Option<u64>,
)
    requires
        name.len() > 0,
        name.last() != '/',
        dir.len() > 0 ==> dir.last() != '/',
        forall|i: int| 0 <= i < slashes.len() ==> #[trigger] slashes[i] == '/',
    ensures
        name != dir ==> placed(dir, true, name + slashes, modified) == PlacedView::Folder(name),
        name != dir ==> placed(dir, false, name + slashes, modified) == PlacedView::File(
            (RemoteFileView { relative: name + slashes, modified }),
        ),
        placed(name, true, name + slashes, modified) is Skipped,
        placed(name, false, name + slashes, modified) is Skipped,
        placed(dir, true, Seq::empty(), modified) is Skipped,
        placed(dir, false, Seq::empty(), modified) is Skipped,
{
    lemma_stripped(name, slashes);
    lemma_stripped(name, Seq::empty());
    lemma_stripped(dir, Seq::empty());
    assert(name + Seq::<char>::empty() =~= name);
    assert(dir + Seq::<char>::empty() =~= dir);
}

proof fn lemma_stripped(name: Seq<char>, slashes: Seq<char>)
    requires
        name.len() > 0 ==> name.last() != '/',
        forall|i: int| 0 <= i < slashes.len() ==> #[trigger] slashes[i] == '/',
    ensures
        strip_end(name + slashes, '/') == name,
    decreases slashes.len(),
{
    if slashes.len() > 0 {
        let init = slashes.drop_last();
        assert forall|i: int| 0 <= i < init.len() implies #[trigger] init[i] == '/' by {
            assert(init[i] == slashes[i]);
        }
        lemma_stripped(name, init);
        assert((name + slashes).last() == slashes[slashes.len() - 1]);
        assert((name + slashes).drop_last() =~= name + init);
    } else {
        assert(name + slashes =~= name);
    }
}

/// What is read of a folder is its listing; a folder that is not there is empty, and an
/// answer that is no success is a failure.
pub proof fn law_answers_are_listings(status: u16, body: Seq<u8>)
    ensures
        answered((404, body)) == Ok::<Seq<ListedView>, Fault>(Seq::empty()),
        200 <= status && status < 300 ==> answered((status, body)) == listing(shown_text(body)),
        status != 404 && !(200 <= status && status < 300) ==> answered((status, body)) is Err,
{
}

/// The entry of a listing that leads to a file with the given name and date, or to the
/// folder that holds it.
pub open spec fn leads_to(
    dav: WebDavView,
    separator: char,
    dir: Seq<char>,
    entry: ListedView,
    answers: spec_fn(Seq<char>) -> (u16, Seq<u8>),
    depth: nat,
    file: RemoteFileView,
) -> bool {
    match listed_name(dav, entry.href, separator) {
        Err(_) => false,
        Ok(name) => {
            &&& name.len() > 0
            &&& strip_end(name, '/') != strip_end(dir, '/')
            &&& if entry.collection {
                tree_files(dav, separator, strip_end(name, '/'), answers, depth) matches Some(
                    Ok(files),
                ) && files.contains(file)
            } else {
                file.relative == name && file.modified == date_seconds(entry.modified)
            }
        },
    }
}

proof fn lemma_entry_files(
    dav: WebDavView,
    separator: char,
    dir: Seq<char>,
    list: Seq<ListedView>,
    answers: spec_fn(Seq<char>) -> (u16, Seq<u8>),
    depth: nat,
    file: RemoteFileView,
)
    requires
        entry_files(dav, separator, dir, list, answers, depth) matches Some(Ok(_)),
    ensures
        (entry_files(dav, separator, dir, list, answers, depth)->Some_0->Ok_0).contains(file)
            <==> exists|i: int|
            0 <= i < list.len() && leads_to(
                dav,
                separator,
                dir,
                #[trigger] list[i],
                answers,
                depth,
                file,
            ),
    decreases list.len(),
{
    let files = entry_files(dav, separator, dir, list, answers, depth)->Some_0->Ok_0;
    if list.len() > 0 {
        let rest = list.skip(1);
        lemma_entry_files(dav, separator, dir, rest, answers, depth, file);
        let more = entry_files(dav, separator, dir, rest, answers, depth)->Some_0->Ok_0;
        let first = files.take(files.len() - more.len());
        assert(files =~= first + more);
        assert(first.contains(file) <==> leads_to(
            dav,
            separator,
            dir,
            list[0],
            answers,
            depth,
            file,
        )) by {
            let name = listed_name(dav, list[0].href, separator)->Ok_0;
            match placed(dir, list[0].collection, name, date_seconds(list[0].modified)) {
                PlacedView::Skipped => {
                    assert(first.len() == 0);
                },
                PlacedView::File(found) => {
                    assert(first =~= seq![found]);
                    assert(seq![found][0] == found);
                },
                PlacedView::Folder(path) => {
                    let sub = tree_files(dav, separator, path, answers, depth)->Some_0->Ok_0;
                    assert(first =~= sub);
                },
            }
        }
        if files.contains(file) {
            let k = choose|k: int| 0 <= k < files.len() && files[k] == file;
            if k < first.len() {
                assert(first[k] == file);
            } else {
                assert(more[k - first.len()] == file);
                let i = choose|i: int|
                    0 <= i < rest.len() && leads_to(
                        dav,
                        separator,
                        dir,
                        #[trigger] rest[i],
                        answers,
                        depth,
                        file,
                    );
                assert(list[i + 1] == rest[i]);
            }
        }
        if exists|i: int|
            0 <= i < list.len() && leads_to(
                dav,
                separator,
                dir,
                #[trigger] list[i],
                answers,
                depth,
                file,
            ) {
            let i = choose|i: int|
                0 <= i < list.len() && leads_to(
                    dav,
                    separator,
                    dir,
                    #[trigger] list[i],
                    answers,
                    depth,
                    file,
                );
            if i == 0 {
                let k = choose|k: int| 0 <= k < first.len() && first[k] == file;
                assert(files[k] == file);
            } else {
                assert(rest[i - 1] == list[i]);
                let k = choose|k: int| 0 <= k < more.len() && more[k] == file;
                assert(files[first.len() + k] == file);
            }
        }
    }
}

/// A file is found below a folder if and only if an entry of the folder's listing is the
/// file, or a folder below which it is found. Only the folder itself and entries without a
/// name are passed over.
pub proof fn law_found_files_are_those_listed(
    dav: WebDavView,
    separator: char,
    dir: Seq<char>,
    list: Seq<ListedView>,
    answers: spec_fn(Seq<char>) -> (u16, Seq<u8>),
    depth: nat,
    file: RemoteFileView,
)
    requires
        answered(answers(dir)) == Ok::<Seq<ListedView>, Fault>(list),
        tree_files(dav, separator, dir, answers, depth + 1) matches Some(Ok(_)),
    ensures
        (tree_files(dav, separator, dir, answers, depth + 1)->Some_0->Ok_0).contains(file)
            <==> exists|i: int|
            0 <= i < list.len() && leads_to(
                dav,
                separator,
                dir,
                #[trigger] list[i],
                answers,
                depth,
                file,
            ),
{
    lemma_entry_files(dav, separator, dir, list, answers, depth, file);
}

} // verus!
