//! A scan of a fixed tree, with a driver that reports what is there.
//!
//! The tree is given as it stands when the scan begins: directories, of which
//! some may refuse to be listed, and files that keep their content and their
//! times, and that can be removed. Of such a tree the driver's replies follow
//! from the scan's requests, and so does all that the scan does.

use crate::entry::{lemma_visible_first, visible, EntryView};
use crate::fingerprint::fingerprint_of;
use crate::log::LogView;
use crate::retention::{
    distinct_fingerprints, distinct_paths, is_newest, keeper, law_newest_survives,
    law_second_scan_removes_nothing, law_unique_is_untouched, lemma_distinct_fingerprints_stay,
    lemma_removed_were_met, lemma_resume_in_two, meet, nothing, remaining, resume, run, spared,
    verdict_on, Observed, Outcome,
};
use crate::scan::{doomed, ReplyView, ScanError, ScanView, StageView};
use crate::trace::{
    accepted, after, ended_by, journal, lemma_ended_in_two, lemma_one_reply,
    lemma_replies_in_two, logged_in, removals, removed_in, replay,
};
use vstd::prelude::*;

verus! {

/// A node of the tree: a file, with what the hashing tool does on it (`None`
/// where the tool cannot be run, else whether it reports success and what it
/// prints), or a directory, with its entries in the order of its listing
/// (`None` where it cannot be listed).
pub enum Node {
    File { path: Seq<char>, name: Seq<char>, tool: Option<(bool, Seq<char>)> },
    Directory { path: Seq<char>, name: Seq<char>, listing: Option<Seq<Node>> },
}

impl Node {
    /// The node as a listing shows it.
    pub open spec fn entry(self) -> EntryView {
        match self {
            Node::File { path, name, tool } => EntryView { path, name, is_dir: false },
            Node::Directory { path, name, listing } => EntryView { path, name, is_dir: true },
        }
    }
}

/// The nodes as a listing shows them.
pub open spec fn entries_of(nodes: Seq<Node>) -> Seq<EntryView> {
    nodes.map_values(|node: Node| node.entry())
}

/// What the driver reports of a run of the hashing tool.
pub open spec fn tool_reply(tool: Option<(bool, Seq<char>)>) -> ReplyView {
    match tool {
        Some((success, output)) => ReplyView::ToolOutput { success, output },
        None => ReplyView::Failed,
    }
}

/// The fingerprint that a run of the hashing tool yields.
pub open spec fn tool_fingerprint(tool: Option<(bool, Seq<char>)>) -> Option<Seq<char>> {
    match tool {
        Some((success, output)) => fingerprint_of(success, output),
        None => None,
    }
}

/// Whether a walk that visits `node` comes to a directory that cannot be
/// listed: the node itself, or one beneath it that no hidden entry stands
/// above.
pub open spec fn blocked(node: Node) -> bool
    decreases node, 1int,
{
    match node {
        Node::File { path, name, tool } => false,
        Node::Directory { path, name, listing } => match listing {
            Some(children) => blocked_all(children),
            None => true,
        },
    }
}

/// Whether a walk that visits the visible ones of `nodes` comes to a directory
/// that cannot be listed.
pub open spec fn blocked_all(nodes: Seq<Node>) -> bool
    decreases nodes, 0int,
{
    nodes.len() > 0 && if nodes.first().entry().hidden() {
        blocked_all(nodes.drop_first())
    } else {
        blocked(nodes.first()) || blocked_all(nodes.drop_first())
    }
}

/// The files at and beneath `node` that the walk fingerprints, in its order:
/// those that have a fingerprint and that no hidden entry stands above. The
/// walk goes into a directory before it goes on to the entry behind it, and
/// it ends at the first directory that cannot be listed.
pub open spec fn met(node: Node) -> Seq<Observed>
    decreases node, 1int,
{
    match node {
        Node::File { path, name, tool } => match tool_fingerprint(tool) {
            Some(fingerprint) => seq![Observed { path, fingerprint }],
            None => Seq::empty(),
        },
        Node::Directory { path, name, listing } => match listing {
            Some(children) => met_all(children),
            None => Seq::empty(),
        },
    }
}

/// The files that `met` gives for the visible ones of `nodes`, in the order of
/// the nodes, up to the first directory that cannot be listed.
pub open spec fn met_all(nodes: Seq<Node>) -> Seq<Observed>
    decreases nodes, 0int,
{
    if nodes.len() == 0 {
        Seq::empty()
    } else if nodes.first().entry().hidden() {
        met_all(nodes.drop_first())
    } else if blocked(nodes.first()) {
        met(nodes.first())
    } else {
        met(nodes.first()) + met_all(nodes.drop_first())
    }
}

/// What the driver replies while the scan visits `node` and all beneath it,
/// `before` being what the scan had done when it turned to the node. A file
/// takes the report of the hashing tool. Where the registry holds the file's
/// fingerprint, the two files' times and the removal follow. A directory
/// takes its listing, and then what its entries take; one that cannot be
/// listed takes the failure.
pub open spec fn replies(
    node: Node,
    before: Outcome,
    times: spec_fn(Seq<char>) -> int,
) -> Seq<ReplyView>
    decreases node, 1int,
{
    match node {
        Node::File { path, name, tool } => match tool_fingerprint(tool) {
            Some(fingerprint) => if before.registry.contains_key(fingerprint) {
                seq![
                    tool_reply(tool),
                    ReplyView::Modified {
                        existing: times(before.registry[fingerprint]),
                        candidate: times(path),
                    },
                    ReplyView::Removed,
                ]
            } else {
                seq![tool_reply(tool)]
            },
            None => seq![tool_reply(tool)],
        },
        Node::Directory { path, name, listing } => match listing {
            Some(children) => seq![ReplyView::Listing(entries_of(children))] + replies_all(
                children,
                before,
                times,
            ),
            None => seq![ReplyView::Failed],
        },
    }
}

/// What the driver replies while the scan visits the visible ones of `nodes`,
/// one after the other, up to the first directory that cannot be listed.
pub open spec fn replies_all(
    nodes: Seq<Node>,
    before: Outcome,
    times: spec_fn(Seq<char>) -> int,
) -> Seq<ReplyView>
    decreases nodes, 0int,
{
    if nodes.len() == 0 {
        Seq::empty()
    } else if nodes.first().entry().hidden() {
        replies_all(nodes.drop_first(), before, times)
    } else if blocked(nodes.first()) {
        replies(nodes.first(), before, times)
    } else {
        replies(nodes.first(), before, times) + replies_all(
            nodes.drop_first(),
            resume(before, met(nodes.first()), times),
            times,
        )
    }
}

/// The records that the visit of `node` and of all beneath it leaves in the
/// log: for each file that the walk comes to, that it is processed, and
/// where the registry holds its fingerprint, the duplicate and the file that
/// goes.
pub open spec fn records(
    node: Node,
    before: Outcome,
    times: spec_fn(Seq<char>) -> int,
) -> Seq<LogView>
    decreases node, 1int,
{
    match node {
        Node::File { path, name, tool } => match tool_fingerprint(tool) {
            Some(fingerprint) => if before.registry.contains_key(fingerprint) {
                seq![
                    LogView::Processing(path),
                    LogView::DuplicateDetected {
                        existing: before.registry[fingerprint],
                        candidate: path,
                    },
                    LogView::Deleting(
                        doomed(
                            verdict_on(before.registry, Observed { path, fingerprint }, times),
                            before.registry[fingerprint],
                            path,
                        ),
                    ),
                ]
            } else {
                seq![LogView::Processing(path)]
            },
            None => seq![LogView::Processing(path)],
        },
        Node::Directory { path, name, listing } => match listing {
            Some(children) => records_all(children, before, times),
            None => Seq::empty(),
        },
    }
}

/// The records that the visit of the visible ones of `nodes` leaves in the
/// log, up to the first directory that cannot be listed.
pub open spec fn records_all(
    nodes: Seq<Node>,
    before: Outcome,
    times: spec_fn(Seq<char>) -> int,
) -> Seq<LogView>
    decreases nodes, 0int,
{
    if nodes.len() == 0 {
        Seq::empty()
    } else if nodes.first().entry().hidden() {
        records_all(nodes.drop_first(), before, times)
    } else if blocked(nodes.first()) {
        records(nodes.first(), before, times)
    } else {
        records(nodes.first(), before, times) + records_all(
            nodes.drop_first(),
            resume(before, met(nodes.first()), times),
            times,
        )
    }
}

/// The scan that has turned to `entry`, with `registry` and with `pending`
/// still to visit.
pub open spec fn turned_to(
    entry: EntryView,
    registry: Map<Seq<char>, Seq<char>>,
    pending: Seq<EntryView>,
) -> ScanView {
    ScanView {
        registry,
        pending,
        stage: if entry.is_dir {
            StageView::Listing(entry.path)
        } else {
            StageView::Output(entry.path)
        },
    }
}

/// The scan that turns to the last of `pending`, or is complete.
pub open spec fn turning(registry: Map<Seq<char>, Seq<char>>, pending: Seq<EntryView>) -> ScanView {
    ScanView::advance(registry, pending, Seq::empty()).0
}

/// The record that closes the log, where the scan turns to `pending` and
/// nothing is left in it.
pub open spec fn closing(pending: Seq<EntryView>) -> Seq<LogView> {
    if pending.len() == 0 {
        seq![LogView::Completed]
    } else {
        Seq::empty()
    }
}

/// The visible entries of a listing, the last to be visited first: those of
/// all but the first node, and then the first node's if it is visible.
proof fn lemma_visible_nodes(nodes: Seq<Node>)
    requires
        nodes.len() > 0,
    ensures
        visible(entries_of(nodes)).reverse() == if nodes.first().entry().hidden() {
            visible(entries_of(nodes.drop_first())).reverse()
        } else {
            visible(entries_of(nodes.drop_first())).reverse().push(nodes.first().entry())
        },
        nodes.first().entry().hidden() ==> visible(entries_of(nodes)) == visible(
            entries_of(nodes.drop_first()),
        ),
        !nodes.first().entry().hidden() ==> visible(entries_of(nodes)).len() > 0,
{
    assert(entries_of(nodes) =~= seq![nodes.first().entry()] + entries_of(nodes.drop_first()));
    lemma_visible_first(nodes.first().entry(), entries_of(nodes.drop_first()));
}

/// Where a listing shows nothing visible, the walk has nothing to visit.
proof fn lemma_nothing_visible(nodes: Seq<Node>, before: Outcome, times: spec_fn(Seq<char>) -> int)
    requires
        visible(entries_of(nodes)).len() == 0,
    ensures
        !blocked_all(nodes),
        met_all(nodes) == Seq::<Observed>::empty(),
        replies_all(nodes, before, times) == Seq::<ReplyView>::empty(),
        records_all(nodes, before, times) == Seq::<LogView>::empty(),
    decreases nodes.len(),
{
    if nodes.len() > 0 {
        lemma_visible_nodes(nodes);
        lemma_nothing_visible(nodes.drop_first(), before, times);
    }
}

/// The visit of a node. The scan does to the files that the walk meets what
/// `resume` says. Where the walk comes to no directory that cannot be listed,
/// the scan takes all the replies and then turns to what was pending; where it
/// comes to one, the scan fails there.
pub proof fn lemma_visit(
    node: Node,
    before: Outcome,
    pending: Seq<EntryView>,
    times: spec_fn(Seq<char>) -> int,
)
    ensures
        resume(before, met(node), times).removed == before.removed + removed_in(
            turned_to(node.entry(), before.registry, pending),
            replies(node, before, times),
        ),
        after(
            turned_to(node.entry(), before.registry, pending),
            replies(node, before, times),
        ).registry == resume(before, met(node), times).registry,
        !blocked(node) ==> {
            &&& accepted(
                turned_to(node.entry(), before.registry, pending),
                replies(node, before, times),
            )
            &&& after(
                turned_to(node.entry(), before.registry, pending),
                replies(node, before, times),
            ) == turning(resume(before, met(node), times).registry, pending)
            &&& logged_in(
                turned_to(node.entry(), before.registry, pending),
                replies(node, before, times),
            ) == records(node, before, times) + closing(pending)
        },
        blocked(node) ==> {
            &&& ended_by(
                turned_to(node.entry(), before.registry, pending),
                replies(node, before, times),
                ScanError::Traversal,
            )
            &&& after(
                turned_to(node.entry(), before.registry, pending),
                replies(node, before, times),
            ).stage is Halted
            &&& logged_in(
                turned_to(node.entry(), before.registry, pending),
                replies(node, before, times),
            ) == records(node, before, times)
        },
    decreases node, 1int,
{
    let scan = turned_to(node.entry(), before.registry, pending);
    let given = replies(node, before, times);
    match node {
        Node::File { path, name, tool } => {
            let first = tool_reply(tool);
            lemma_one_reply(scan, first);
            match tool_fingerprint(tool) {
                Some(fingerprint) => {
                    let file = Observed { path, fingerprint };
                    assert(resume(before, seq![file], times) == meet(before, file, times)) by {
                        reveal_with_fuel(resume, 2);
                    }
                    if before.registry.contains_key(fingerprint) {
                        let existing = before.registry[fingerprint];
                        let second = ReplyView::Modified {
                            existing: times(existing),
                            candidate: times(path),
                        };
                        let third = ReplyView::Removed;
                        let compared = scan.next(first).0;
                        let settling = compared.next(second).0;
                        assert(given =~= seq![first] + seq![second] + seq![third]);
                        lemma_one_reply(compared, second);
                        lemma_one_reply(settling, third);
                        lemma_replies_in_two(scan, seq![first], seq![second]);
                        lemma_replies_in_two(scan, seq![first] + seq![second], seq![third]);
                    }
                },
                None => {},
            }
        },
        Node::Directory { path, name, listing } => match listing {
            Some(children) => {
                let shown = ReplyView::Listing(entries_of(children));
                let below = replies_all(children, before, times);
                lemma_one_reply(scan, shown);
                lemma_visit_all(children, before, pending, times);
                lemma_replies_in_two(scan, seq![shown], below);
                if visible(entries_of(children)).len() == 0 {
                    lemma_nothing_visible(children, before, times);
                }
                if blocked(node) {
                    lemma_ended_in_two(scan, seq![shown], below, ScanError::Traversal);
                }
            },
            None => {
                lemma_one_reply(scan, ReplyView::Failed);
            },
        },
    }
}

/// The visit of the visible ones of `nodes`, one after the other.
pub proof fn lemma_visit_all(
    nodes: Seq<Node>,
    before: Outcome,
    pending: Seq<EntryView>,
    times: spec_fn(Seq<char>) -> int,
)
    ensures
        resume(before, met_all(nodes), times).removed == before.removed + removed_in(
            turning(before.registry, pending + visible(entries_of(nodes)).reverse()),
            replies_all(nodes, before, times),
        ),
        after(
            turning(before.registry, pending + visible(entries_of(nodes)).reverse()),
            replies_all(nodes, before, times),
        ).registry == resume(before, met_all(nodes), times).registry,
        !blocked_all(nodes) ==> {
            &&& accepted(
                turning(before.registry, pending + visible(entries_of(nodes)).reverse()),
                replies_all(nodes, before, times),
            )
            &&& after(
                turning(before.registry, pending + visible(entries_of(nodes)).reverse()),
                replies_all(nodes, before, times),
            ) == turning(resume(before, met_all(nodes), times).registry, pending)
            &&& logged_in(
                turning(before.registry, pending + visible(entries_of(nodes)).reverse()),
                replies_all(nodes, before, times),
            ) == records_all(nodes, before, times) + if visible(entries_of(nodes)).len() > 0 {
                closing(pending)
            } else {
                Seq::empty()
            }
        },
        blocked_all(nodes) ==> {
            &&& ended_by(
                turning(before.registry, pending + visible(entries_of(nodes)).reverse()),
                replies_all(nodes, before, times),
                ScanError::Traversal,
            )
            &&& after(
                turning(before.registry, pending + visible(entries_of(nodes)).reverse()),
                replies_all(nodes, before, times),
            ).stage is Halted
            &&& logged_in(
                turning(before.registry, pending + visible(entries_of(nodes)).reverse()),
                replies_all(nodes, before, times),
            ) == records_all(nodes, before, times)
        },
    decreases nodes, 0int,
{
    let stack = pending + visible(entries_of(nodes)).reverse();
    let scan = turning(before.registry, stack);
    if nodes.len() > 0 {
        let first = nodes.first();
        let rest = nodes.drop_first();
        let below = pending + visible(entries_of(rest)).reverse();
        lemma_visible_nodes(nodes);
        if first.entry().hidden() {
            lemma_visit_all(rest, before, pending, times);
        } else {
            assert(stack.drop_last() =~= below);
            lemma_visit(first, before, below, times);
            if !blocked(first) {
                let middle = resume(before, met(first), times);
                let here = replies(first, before, times);
                let there = replies_all(rest, middle, times);
                lemma_visit_all(rest, middle, pending, times);
                lemma_replies_in_two(scan, here, there);
                lemma_resume_in_two(before, met(first), met_all(rest), times);
                if visible(entries_of(rest)).len() == 0 {
                    lemma_nothing_visible(rest, middle, times);
                }
                if blocked_all(rest) {
                    lemma_ended_in_two(scan, here, there, ScanError::Traversal);
                }
            }
        }
    }
}

/// What the driver replies to the scan of `tree`.
pub open spec fn honest(tree: Node, times: spec_fn(Seq<char>) -> int) -> Seq<ReplyView> {
    replies(tree, nothing(), times)
}

/// The files that the scan of `tree` fingerprints, in the order in which it
/// meets them.
pub open spec fn fingerprinted(tree: Node) -> Seq<Observed> {
    met(tree)
}

/// The path of the directory that is the root of `tree`.
pub open spec fn root_of(tree: Node) -> Seq<char> {
    tree.entry().path
}

/// The scan of a fixed tree. Its registry and the files it has removed are
/// those of `run` on the files that the walk fingerprints. Where every
/// directory that the walk comes to can be listed, the scan takes every
/// reply, the walk is complete, and the log holds the records of the visit
/// and then the record that closes it. Where one cannot, the scan fails there
/// with the traversal error, and the log is never closed.
pub proof fn law_scan_of_tree(tree: Node, times: spec_fn(Seq<char>) -> int)
    requires
        tree is Directory,
    ensures
        replay(root_of(tree), honest(tree, times)).registry == run(
            fingerprinted(tree),
            times,
        ).registry,
        removals(root_of(tree), honest(tree, times)) == run(fingerprinted(tree), times).removed,
        !blocked(tree) ==> {
            &&& accepted(ScanView::start(root_of(tree)), honest(tree, times))
            &&& replay(root_of(tree), honest(tree, times)).stage is Finished
            &&& journal(root_of(tree), honest(tree, times)) == records(tree, nothing(), times).push(
                LogView::Completed,
            )
        },
        blocked(tree) ==> {
            &&& ended_by(ScanView::start(root_of(tree)), honest(tree, times), ScanError::Traversal)
            &&& replay(root_of(tree), honest(tree, times)).stage is Halted
            &&& journal(root_of(tree), honest(tree, times)) == records(tree, nothing(), times)
        },
{
    lemma_visit(tree, nothing(), Seq::empty(), times);
}

/// Whether the scan of `tree` leaves the file at `path` in place.
pub open spec fn stays(tree: Node, times: spec_fn(Seq<char>) -> int, path: Seq<char>) -> bool {
    !removals(root_of(tree), honest(tree, times)).contains(path)
}

/// The scan of a fixed tree removes nothing but files that it fingerprinted:
/// no directory, no file without a fingerprint, and nothing that stands at or
/// beneath a hidden entry.
pub proof fn law_tree_removes_only_fingerprinted(
    tree: Node,
    times: spec_fn(Seq<char>) -> int,
    path: Seq<char>,
)
    requires
        tree is Directory,
        !stays(tree, times, path),
    ensures
        exists|i: int|
            0 <= i < fingerprinted(tree).len() && (#[trigger] fingerprinted(tree)[i]).path == path,
{
    law_scan_of_tree(tree, times);
    lemma_removed_were_met(fingerprinted(tree), times, path);
}

/// Of the files with one fingerprint that the scan of a fixed tree meets, it
/// leaves exactly one in place: the newest, and of several that are the
/// newest by their times the one that the walk meets first.
pub proof fn law_tree_keeps_newest(tree: Node, times: spec_fn(Seq<char>) -> int, i: int)
    requires
        tree is Directory,
        distinct_paths(fingerprinted(tree)),
        0 <= i < fingerprinted(tree).len(),
    ensures
        stays(tree, times, fingerprinted(tree)[i].path) <==> is_newest(
            fingerprinted(tree),
            times,
            i,
        ),
        is_newest(
            fingerprinted(tree),
            times,
            keeper(fingerprinted(tree), times, fingerprinted(tree)[i].fingerprint),
        ),
        fingerprinted(tree)[keeper(
            fingerprinted(tree),
            times,
            fingerprinted(tree)[i].fingerprint,
        )].fingerprint == fingerprinted(tree)[i].fingerprint,
        forall|j: int|
            0 <= j < fingerprinted(tree).len() && (#[trigger] fingerprinted(tree)[j]).fingerprint
                == fingerprinted(tree)[i].fingerprint ==> (stays(
                tree,
                times,
                fingerprinted(tree)[j].path,
            ) <==> j == keeper(fingerprinted(tree), times, fingerprinted(tree)[i].fingerprint)),
{
    let files = fingerprinted(tree);
    law_scan_of_tree(tree, times);
    law_newest_survives(files, times, i);
}

/// A file of a fixed tree whose fingerprint no other file has is left in
/// place.
pub proof fn law_tree_leaves_unique(tree: Node, times: spec_fn(Seq<char>) -> int, i: int)
    requires
        tree is Directory,
        distinct_paths(fingerprinted(tree)),
        0 <= i < fingerprinted(tree).len(),
        forall|j: int|
            0 <= j < fingerprinted(tree).len() && j != i ==> (#[trigger] fingerprinted(
                tree,
            )[j]).fingerprint != fingerprinted(tree)[i].fingerprint,
    ensures
        stays(tree, times, fingerprinted(tree)[i].path),
{
    law_scan_of_tree(tree, times);
    law_unique_is_untouched(fingerprinted(tree), times, i);
}

/// A directory that cannot be listed ends the scan of a fixed tree with the
/// traversal error, before the walk is complete. Where the walk met no two
/// files with one fingerprint before it came there, no file is removed.
pub proof fn law_tree_with_unreadable_directory(tree: Node, times: spec_fn(Seq<char>) -> int)
    requires
        tree is Directory,
        blocked(tree),
        distinct_fingerprints(fingerprinted(tree)),
    ensures
        ended_by(ScanView::start(root_of(tree)), honest(tree, times), ScanError::Traversal),
        replay(root_of(tree), honest(tree, times)).stage is Halted,
        removals(root_of(tree), honest(tree, times)) == Seq::<Seq<char>>::empty(),
{
    law_scan_of_tree(tree, times);
    lemma_distinct_fingerprints_stay(fingerprinted(tree), times);
}

/// Whether two nodes are the same but for what stands beneath hidden entries.
pub open spec fn alike(a: Node, b: Node) -> bool
    decreases a, 1int,
{
    match a {
        Node::File { path, name, tool } => a == b,
        Node::Directory { path, name, listing } => b matches Node::Directory {
            path: other_path,
            name: other_name,
            listing: other_listing,
        } && path == other_path && name == other_name && match listing {
            Some(children) => other_listing matches Some(other_children) && alike_all(
                children,
                other_children,
            ),
            None => other_listing is None,
        },
    }
}

/// Whether two listings show the same entries, and each visible entry of the
/// one is `alike` the entry of the other in its place.
pub open spec fn alike_all(a: Seq<Node>, b: Seq<Node>) -> bool
    decreases a, 0int,
{
    &&& a.len() == b.len()
    &&& a.len() > 0 ==> {
        &&& a.first().entry() == b.first().entry()
        &&& a.first().entry().hidden() || alike(a.first(), b.first())
        &&& alike_all(a.drop_first(), b.drop_first())
    }
}

/// Nodes that are alike show the same entries.
proof fn lemma_alike_entries(a: Seq<Node>, b: Seq<Node>)
    requires
        alike_all(a, b),
    ensures
        entries_of(a) == entries_of(b),
    decreases a.len(),
{
    if a.len() > 0 {
        lemma_alike_entries(a.drop_first(), b.drop_first());
        assert(entries_of(a) =~= seq![a.first().entry()] + entries_of(a.drop_first()));
    }
}

/// Nodes that are alike are scanned alike.
proof fn lemma_alike(a: Node, b: Node, before: Outcome, times: spec_fn(Seq<char>) -> int)
    requires
        alike(a, b),
    ensures
        blocked(a) == blocked(b),
        met(a) == met(b),
        replies(a, before, times) == replies(b, before, times),
        records(a, before, times) == records(b, before, times),
    decreases a, 1int,
{
    match a {
        Node::File { path, name, tool } => {},
        Node::Directory { path, name, listing } => match listing {
            Some(children) => {
                let others = b->listing->Some_0;
                lemma_alike_entries(children, others);
                lemma_alike_all(children, others, before, times);
            },
            None => {},
        },
    }
}

/// Listings that are alike are scanned alike.
proof fn lemma_alike_all(
    a: Seq<Node>,
    b: Seq<Node>,
    before: Outcome,
    times: spec_fn(Seq<char>) -> int,
)
    requires
        alike_all(a, b),
    ensures
        blocked_all(a) == blocked_all(b),
        met_all(a) == met_all(b),
        replies_all(a, before, times) == replies_all(b, before, times),
        records_all(a, before, times) == records_all(b, before, times),
    decreases a, 0int,
{
    if a.len() > 0 {
        if a.first().entry().hidden() {
            lemma_alike_all(a.drop_first(), b.drop_first(), before, times);
        } else {
            lemma_alike(a.first(), b.first(), before, times);
            lemma_alike_all(
                a.drop_first(),
                b.drop_first(),
                resume(before, met(a.first()), times),
                times,
            );
        }
    }
}

/// What stands beneath a hidden entry has no part in the scan: two trees that
/// are the same but for what stands there take the same replies, so the scan
/// asks for the same, removes the same and logs the same, and it fingerprints
/// the same files.
pub proof fn law_hidden_subtrees_have_no_part(a: Node, b: Node, times: spec_fn(Seq<char>) -> int)
    requires
        alike(a, b),
    ensures
        honest(a, times) == honest(b, times),
        fingerprinted(a) == fingerprinted(b),
        records(a, nothing(), times) == records(b, nothing(), times),
{
    lemma_alike(a, b, nothing(), times);
}

/// The node without the files beneath it that are among `gone`.
pub open spec fn without(node: Node, gone: Seq<Seq<char>>) -> Node
    decreases node, 1int,
{
    match node {
        Node::File { path, name, tool } => node,
        Node::Directory { path, name, listing } => Node::Directory {
            path,
            name,
            listing: match listing {
                Some(children) => Some(without_all(children, gone)),
                None => None,
            },
        },
    }
}

/// The nodes without the files at and beneath them that are among `gone`.
pub open spec fn without_all(nodes: Seq<Node>, gone: Seq<Seq<char>>) -> Seq<Node>
    decreases nodes, 0int,
{
    if nodes.len() == 0 {
        Seq::empty()
    } else if nodes.first() is File && gone.contains(nodes.first().entry().path) {
        without_all(nodes.drop_first(), gone)
    } else {
        seq![without(nodes.first(), gone)] + without_all(nodes.drop_first(), gone)
    }
}

/// With files gone from under a node, the walk meets the files that it met
/// before and that are not gone.
proof fn lemma_without(node: Node, gone: Seq<Seq<char>>)
    requires
        !(node is File && gone.contains(node.entry().path)),
        !blocked(node),
    ensures
        without(node, gone).entry() == node.entry(),
        !blocked(without(node, gone)),
        met(without(node, gone)) == met(node).filter(spared(gone)),
    decreases node, 1int,
{
    match node {
        Node::File { path, name, tool } => {
            reveal_with_fuel(Seq::filter, 2);
        },
        Node::Directory { path, name, listing } => {
            lemma_without_all(listing->Some_0, gone);
        },
    }
}

/// With files gone from a listing and from under it, the walk meets the files
/// that it met before and that are not gone.
proof fn lemma_without_all(nodes: Seq<Node>, gone: Seq<Seq<char>>)
    requires
        !blocked_all(nodes),
    ensures
        !blocked_all(without_all(nodes, gone)),
        met_all(without_all(nodes, gone)) == met_all(nodes).filter(spared(gone)),
    decreases nodes, 0int,
{
    reveal_with_fuel(Seq::filter, 2);
    if nodes.len() > 0 {
        let first = nodes.first();
        let rest = nodes.drop_first();
        lemma_without_all(rest, gone);
        if first is File && gone.contains(first.entry().path) {
            if !first.entry().hidden() {
                Seq::filter_distributes_over_add(met(first), met_all(rest), spared(gone));
            }
        } else {
            let left = seq![without(first, gone)] + without_all(rest, gone);
            assert(left.drop_first() =~= without_all(rest, gone));
            if !first.entry().hidden() {
                lemma_without(first, gone);
            }
        }
    }
}

/// A second scan, right after a first that was complete and of the tree as
/// the first left it, removes nothing.
pub proof fn law_second_scan_of_tree_removes_nothing(tree: Node, times: spec_fn(Seq<char>) -> int)
    requires
        tree is Directory,
        !blocked(tree),
        distinct_paths(fingerprinted(tree)),
    ensures
        replay(root_of(tree), honest(tree, times)).stage is Finished,
        fingerprinted(without(tree, removals(root_of(tree), honest(tree, times)))) == remaining(
            fingerprinted(tree),
            times,
        ),
        replay(
            root_of(tree),
            honest(without(tree, removals(root_of(tree), honest(tree, times))), times),
        ).stage is Finished,
        removals(
            root_of(tree),
            honest(without(tree, removals(root_of(tree), honest(tree, times))), times),
        ) == Seq::<Seq<char>>::empty(),
{
    let gone = removals(root_of(tree), honest(tree, times));
    law_scan_of_tree(tree, times);
    lemma_without(tree, gone);
    law_second_scan_removes_nothing(fingerprinted(tree), times);
    law_scan_of_tree(without(tree, gone), times);
}

} // verus!
