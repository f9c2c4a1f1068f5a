//! What holds of a scan whatever its driver replies.
//!
//! A scan is a function of its root and of the replies it was given. The
//! statements here are about every sequence of replies, the ones that no
//! honest driver would give included.

use crate::entry::{visible, EntryView};
use crate::log::LogView;
use crate::scan::{doomed, ReplyView, RequestView, ScanError, ScanView, StageView, TurnView};
use vstd::prelude::*;

verus! {

/// The scan `scan` after it took `replies`, one by one.
pub open spec fn after(scan: ScanView, replies: Seq<ReplyView>) -> ScanView
    decreases replies.len(),
{
    if replies.len() == 0 {
        scan
    } else {
        after(scan, replies.drop_last()).next(replies.last()).0
    }
}

/// The scan of the tree under `root` after it took `replies`, one by one.
pub open spec fn replay(root: Seq<char>, replies: Seq<ReplyView>) -> ScanView {
    after(ScanView::start(root), replies)
}

/// What the step that took `replies[i]` yielded.
pub open spec fn outcome_at(
    root: Seq<char>,
    replies: Seq<ReplyView>,
    i: int,
) -> Result<TurnView, ScanError> {
    replay(root, replies.take(i)).next(replies[i]).1
}

/// The request that the scan had handed out when it had taken the first `i`
/// of `replies`, if it had one out.
pub open spec fn request_at(
    root: Seq<char>,
    replies: Seq<ReplyView>,
    i: int,
) -> Option<RequestView> {
    if i == 0 {
        Some(RequestView::ListDirectory(root))
    } else {
        match outcome_at(root, replies, i - 1) {
            Ok(turn) => Some(turn.request),
            Err(_) => None,
        }
    }
}

/// The files whose removal the driver reported to `scan` while it took
/// `replies`, in the order of the reports.
pub open spec fn removed_in(scan: ScanView, replies: Seq<ReplyView>) -> Seq<Seq<char>>
    decreases replies.len(),
{
    if replies.len() == 0 {
        Seq::empty()
    } else {
        let before = replies.drop_last();
        match after(scan, before).stage {
            StageView::Removal { fingerprint, verdict, existing, candidate } => match replies.last() {
                ReplyView::Removed => removed_in(scan, before).push(
                    doomed(verdict, existing, candidate),
                ),
                _ => removed_in(scan, before),
            },
            _ => removed_in(scan, before),
        }
    }
}

/// The files whose removal the driver reported to the scan of the tree under
/// `root` while it took `replies`, in the order of the reports.
pub open spec fn removals(root: Seq<char>, replies: Seq<ReplyView>) -> Seq<Seq<char>> {
    removed_in(ScanView::start(root), replies)
}

/// The records that `scan` had appended to the log while it took `replies`,
/// in their order.
pub open spec fn logged_in(scan: ScanView, replies: Seq<ReplyView>) -> Seq<LogView>
    decreases replies.len(),
{
    if replies.len() == 0 {
        Seq::empty()
    } else {
        logged_in(scan, replies.drop_last()) + match after(scan, replies.drop_last()).next(
            replies.last(),
        ).1 {
            Ok(turn) => turn.log,
            Err(_) => Seq::empty(),
        }
    }
}

/// The records that the scan of the tree under `root` had appended to the log
/// while it took `replies`, in their order.
pub open spec fn journal(root: Seq<char>, replies: Seq<ReplyView>) -> Seq<LogView> {
    logged_in(ScanView::start(root), replies)
}

/// Whether `scan` took every one of `replies` as an answer to the request it
/// had handed out: no step failed.
pub open spec fn accepted(scan: ScanView, replies: Seq<ReplyView>) -> bool
    decreases replies.len(),
{
    replies.len() > 0 ==> accepted(scan, replies.drop_last()) && after(
        scan,
        replies.drop_last(),
    ).next(replies.last()).1 is Ok
}

/// Whether `scan` took all of `replies` but the last as answers, and failed
/// with `error` on the last.
pub open spec fn ended_by(scan: ScanView, replies: Seq<ReplyView>, error: ScanError) -> bool {
    &&& replies.len() > 0
    &&& accepted(scan, replies.drop_last())
    &&& after(scan, replies.drop_last()).next(replies.last()).1 == Err::<TurnView, ScanError>(
        error,
    )
}

/// Whether the scan is over: the walk is complete, or the scan failed.
pub open spec fn is_over(scan: ScanView) -> bool {
    scan.stage is Finished || scan.stage is Halted
}

/// One reply is one step.
pub proof fn lemma_one_reply(scan: ScanView, reply: ReplyView)
    ensures
        after(scan, seq![reply]) == scan.next(reply).0,
        accepted(scan, seq![reply]) == (scan.next(reply).1 is Ok),
        ended_by(scan, seq![reply], ScanError::Traversal) == (scan.next(reply).1 == Err::<
            TurnView,
            ScanError,
        >(ScanError::Traversal)),
        logged_in(scan, seq![reply]) == match scan.next(reply).1 {
            Ok(turn) => turn.log,
            Err(_) => Seq::empty(),
        },
        removed_in(scan, seq![reply]) == match scan.stage {
            StageView::Removal { fingerprint, verdict, existing, candidate } => match reply {
                ReplyView::Removed => seq![doomed(verdict, existing, candidate)],
                _ => Seq::empty(),
            },
            _ => Seq::empty(),
        },
{
    reveal_with_fuel(after, 2);
    reveal_with_fuel(accepted, 2);
    reveal_with_fuel(removed_in, 2);
    reveal_with_fuel(logged_in, 2);
}

/// To take one sequence of replies and then another is to take the two in a
/// row.
pub proof fn lemma_replies_in_two(scan: ScanView, first: Seq<ReplyView>, second: Seq<ReplyView>)
    ensures
        after(scan, first + second) == after(after(scan, first), second),
        removed_in(scan, first + second) == removed_in(scan, first) + removed_in(
            after(scan, first),
            second,
        ),
        logged_in(scan, first + second) == logged_in(scan, first) + logged_in(
            after(scan, first),
            second,
        ),
        accepted(scan, first + second) == (accepted(scan, first) && accepted(
            after(scan, first),
            second,
        )),
    decreases second.len(),
{
    if second.len() > 0 {
        let shorter = second.drop_last();
        lemma_replies_in_two(scan, first, shorter);
        assert((first + second).drop_last() =~= first + shorter);
    }
}

/// A scan that takes one sequence of replies and fails at the end of another
/// fails at the end of the two in a row.
pub proof fn lemma_ended_in_two(
    scan: ScanView,
    first: Seq<ReplyView>,
    second: Seq<ReplyView>,
    error: ScanError,
)
    requires
        accepted(scan, first),
        ended_by(after(scan, first), second, error),
    ensures
        ended_by(scan, first + second, error),
{
    lemma_replies_in_two(scan, first, second.drop_last());
    assert((first + second).drop_last() =~= first + second.drop_last());
}

/// A scan that is over stays as it is, refuses every reply, and has nothing
/// more removed.
pub proof fn lemma_over_is_final(root: Seq<char>, replies: Seq<ReplyView>, i: int, j: int)
    requires
        0 <= i <= j <= replies.len(),
        is_over(replay(root, replies.take(i))),
    ensures
        replay(root, replies.take(j)) == replay(root, replies.take(i)),
        removals(root, replies.take(j)) == removals(root, replies.take(i)),
        j < replies.len() ==> outcome_at(root, replies, j) == Err::<TurnView, ScanError>(
            ScanError::Closed,
        ),
    decreases j - i,
{
    if i < j {
        lemma_over_is_final(root, replies, i, j - 1);
        assert(replies.take(j).drop_last() =~= replies.take(j - 1));
    }
}

/// Whether `request` asks for anything to be done to `path`.
pub open spec fn names(request: RequestView, path: Seq<char>) -> bool {
    match request {
        RequestView::ListDirectory(dir) => dir == path,
        RequestView::Fingerprint(file) => file == path,
        RequestView::ReadModified { existing, candidate } => existing == path || candidate == path,
        RequestView::Remove(file) => file == path,
        RequestView::Finished => false,
    }
}

/// Whether `entries` has a visible entry at `path`.
pub open spec fn has_visible(entries: Seq<EntryView>, path: Seq<char>) -> bool {
    exists|k: int|
        0 <= k < entries.len() && !(#[trigger] entries[k]).hidden() && entries[k].path == path
}

/// Whether `reply` is a listing with a visible entry at `path`.
pub open spec fn lists(reply: ReplyView, path: Seq<char>) -> bool {
    match reply {
        ReplyView::Listing(entries) => has_visible(entries, path),
        _ => false,
    }
}

/// Whether one of `replies` is a listing with a visible entry at `path`.
pub open spec fn shown(replies: Seq<ReplyView>, path: Seq<char>) -> bool {
    exists|j: int| 0 <= j < replies.len() && lists(#[trigger] replies[j], path)
}

/// Whether the scan has a reason to know of `path`: it is the root, or a
/// listing had a visible entry there.
pub open spec fn known(root: Seq<char>, replies: Seq<ReplyView>, path: Seq<char>) -> bool {
    path == root || shown(replies, path)
}

/// Whether the stage `stage` speaks of `path`.
pub open spec fn stage_names(stage: StageView, path: Seq<char>) -> bool {
    match stage {
        StageView::Listing(dir) => dir == path,
        StageView::Output(file) => file == path,
        StageView::Modified { fingerprint, existing, candidate } => existing == path || candidate
            == path,
        StageView::Removal { fingerprint, verdict, existing, candidate } => existing == path
            || candidate == path,
        StageView::Finished => false,
        StageView::Halted => false,
    }
}

/// Whether all that `scan` holds is visible and known: the entries that are
/// pending, the paths of its stage, and the paths in its registry.
pub open spec fn confined(scan: ScanView, root: Seq<char>, replies: Seq<ReplyView>) -> bool {
    &&& forall|k: int|
        0 <= k < scan.pending.len() ==> !(#[trigger] scan.pending[k]).hidden() && known(
            root,
            replies,
            scan.pending[k].path,
        )
    &&& forall|path: Seq<char>| #[trigger]
        stage_names(scan.stage, path) ==> known(root, replies, path)
    &&& forall|f: Seq<char>| #[trigger]
        scan.registry.contains_key(f) ==> known(root, replies, scan.registry[f])
}

/// What is known stays known when another reply comes.
proof fn lemma_known_grows(
    root: Seq<char>,
    replies: Seq<ReplyView>,
    reply: ReplyView,
    path: Seq<char>,
)
    requires
        known(root, replies, path),
    ensures
        known(root, replies.push(reply), path),
{
    if path != root {
        let j = choose|j: int| 0 <= j < replies.len() && lists(#[trigger] replies[j], path);
        assert(replies.push(reply)[j] == replies[j]);
    }
}

/// The visible entries of a listing are known once the listing has come.
proof fn lemma_listed_known(
    root: Seq<char>,
    replies: Seq<ReplyView>,
    entries: Seq<EntryView>,
    k: int,
)
    requires
        0 <= k < visible(entries).reverse().len(),
    ensures
        !visible(entries).reverse()[k].hidden(),
        known(root, replies.push(ReplyView::Listing(entries)), visible(entries).reverse()[k].path),
{
    let seen = visible(entries);
    let entry = seen.reverse()[k];
    let pred = |e: EntryView| !e.hidden();
    entries.lemma_filter_contains_rev(pred, entry);
    let after = replies.push(ReplyView::Listing(entries));
    assert(after[replies.len() as int] == ReplyView::Listing(entries));
}

/// A step keeps the scan confined, and asks for nothing but what is known.
pub proof fn lemma_step_confined(
    scan: ScanView,
    root: Seq<char>,
    replies: Seq<ReplyView>,
    reply: ReplyView,
)
    requires
        confined(scan, root, replies),
    ensures
        confined(scan.next(reply).0, root, replies.push(reply)),
        scan.next(reply).1 matches Ok(turn) ==> forall|path: Seq<char>| #[trigger]
            names(turn.request, path) ==> known(root, replies.push(reply), path),
{
    let after = replies.push(reply);
    assert forall|path: Seq<char>| known(root, replies, path) implies known(root, after, path) by {
        lemma_known_grows(root, replies, reply, path);
    }
    match scan.stage {
        StageView::Listing(dir) => match reply {
            ReplyView::Listing(entries) => {
                let added = visible(entries).reverse();
                let pending = scan.pending + added;
                assert forall|k: int| 0 <= k < pending.len() implies !(#[trigger] pending[k]).hidden()
                    && known(root, after, pending[k].path) by {
                    if k >= scan.pending.len() {
                        lemma_listed_known(root, replies, entries, k - scan.pending.len());
                    }
                }
            },
            _ => {},
        },
        StageView::Output(file) => {
            assert(stage_names(scan.stage, file));
        },
        StageView::Modified { fingerprint, existing, candidate } => {
            assert(stage_names(scan.stage, existing));
            assert(stage_names(scan.stage, candidate));
        },
        StageView::Removal { fingerprint, verdict, existing, candidate } => {
            assert(stage_names(scan.stage, candidate));
        },
        StageView::Finished => {},
        StageView::Halted => {},
    }
}

/// However the driver replies, the scan stays confined.
pub proof fn lemma_replay_confined(root: Seq<char>, replies: Seq<ReplyView>)
    ensures
        confined(replay(root, replies), root, replies),
    decreases replies.len(),
{
    if replies.len() > 0 {
        let before = replies.drop_last();
        lemma_replay_confined(root, before);
        lemma_step_confined(replay(root, before), root, before, replies.last());
    }
}

/// Hidden entries stay out of the scan: whatever the driver replies, the scan
/// asks for nothing to be listed, fingerprinted, compared or removed but the
/// root and what a listing showed as a visible entry. An entry whose name
/// starts with the marker is never pending and never asked about, so nothing
/// beneath it is ever listed.
pub proof fn law_hidden_entries_stay_out(
    root: Seq<char>,
    replies: Seq<ReplyView>,
    i: int,
    path: Seq<char>,
)
    requires
        0 <= i <= replies.len(),
        request_at(root, replies, i) matches Some(request) && names(request, path),
    ensures
        known(root, replies.take(i), path),
        forall|k: int|
            0 <= k < replay(root, replies.take(i)).pending.len() ==> !(#[trigger] replay(
                root,
                replies.take(i),
            ).pending[k]).hidden(),
{
    lemma_replay_confined(root, replies.take(i));
    if i > 0 {
        let before = replies.take(i - 1);
        lemma_replay_confined(root, before);
        lemma_step_confined(replay(root, before), root, before, replies[i - 1]);
    }
}

/// A directory that cannot be listed ends the scan at once: the step yields
/// the traversal error, every later reply is refused, the walk is never
/// complete, and no file is removed from then on.
pub proof fn law_unreadable_directory_ends_scan(root: Seq<char>, replies: Seq<ReplyView>, i: int)
    requires
        0 <= i < replies.len(),
        replay(root, replies.take(i)).stage is Listing,
        replies[i] is Failed,
    ensures
        outcome_at(root, replies, i) == Err::<TurnView, ScanError>(ScanError::Traversal),
        forall|j: int|
            i < j < replies.len() ==> #[trigger] outcome_at(root, replies, j) == Err::<
                TurnView,
                ScanError,
            >(ScanError::Closed),
        replay(root, replies).stage is Halted,
        removals(root, replies) == removals(root, replies.take(i)),
{
    assert(replies.take(i + 1).drop_last() =~= replies.take(i));
    assert forall|j: int| i < j < replies.len() implies #[trigger] outcome_at(root, replies, j)
        == Err::<TurnView, ScanError>(ScanError::Closed) by {
        lemma_over_is_final(root, replies, i + 1, j);
    }
    lemma_over_is_final(root, replies, i + 1, replies.len() as int);
    assert(replies.take(replies.len() as int) =~= replies);
}

/// Where no file was removed before a directory could not be listed, the
/// scan removes no file at all.
pub proof fn law_unreadable_directory_removes_nothing(
    root: Seq<char>,
    replies: Seq<ReplyView>,
    i: int,
)
    requires
        0 <= i < replies.len(),
        replay(root, replies.take(i)).stage is Listing,
        replies[i] is Failed,
        removals(root, replies.take(i)).len() == 0,
    ensures
        removals(root, replies).len() == 0,
        replay(root, replies).stage is Halted,
{
    law_unreadable_directory_ends_scan(root, replies, i);
}

/// A fingerprint that the registry holds stays in it, whatever the driver
/// replies.
pub proof fn law_fingerprints_stay_registered(
    scan: ScanView,
    replies: Seq<ReplyView>,
    fingerprint: Seq<char>,
)
    requires
        scan.registry.contains_key(fingerprint),
    ensures
        after(scan, replies).registry.contains_key(fingerprint),
    decreases replies.len(),
{
    if replies.len() > 0 {
        law_fingerprints_stay_registered(scan, replies.drop_last(), fingerprint);
    }
}

} // verus!
