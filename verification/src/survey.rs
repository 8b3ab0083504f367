//! A scan from beginning to end: the filesystem as the answers to a walker
//! describe it, the visits that a scan of it is made of, and the tree and
//! the messages that come of them.

use vstd::prelude::*;
use crate::node::{NodeView, all_well_formed, bytes_in, entries_in, total_size};
use crate::order::{lemma_sort_desc, sort_desc};
use crate::progress::{MessageView, ProgressView, snapshots_first};
use crate::session::{SessionState, SessionView, lemma_received_concat, lemma_snapshots_received};
use crate::walk_proofs::{
    lemma_frames_advanced, lemma_size_is_file_bytes, lemma_sizes_are_file_bytes,
    lemma_step_keeps_inv, lemma_with_child,
};
use crate::walk::{
    EntryView, FoundView, FrameView, Phase, Settled, WalkerView, deliver, is_visited, to_visit,
};

verus! {

/// What lies at a path: a file, or a directory with what lies at each of
/// its entries. `None` stands for metadata or a listing that cannot be
/// read.
pub enum FsTree {
    File { len: Option<u64> },
    Directory { entries: Option<Seq<FsEntry>> },
}

/// One entry of a directory together with what lies at its path.
pub struct FsEntry {
    pub entry: EntryView,
    pub below: FsTree,
}

/// One look at the filesystem: the path looked at and what was found.
pub struct Visit {
    pub path: Seq<char>,
    pub found: FoundView,
}

/// The listing that `entries` make.
pub open spec fn listing(entries: Seq<FsEntry>) -> Seq<EntryView> {
    entries.map_values(|e: FsEntry| e.entry)
}

impl FsTree {
    /// What a look at this place finds.
    pub open spec fn found(self) -> FoundView {
        match self {
            FsTree::File { len } => FoundView::File { len },
            FsTree::Directory { entries } => FoundView::Directory {
                entries: match entries {
                    Some(es) => Some(listing(es)),
                    None => None,
                },
            },
        }
    }

    /// The tree that a scan of this place makes, under the given name and
    /// path: a file with its length, or none where that cannot be read; a
    /// directory with the scans of its entries, symbolic links left out,
    /// ordered by size, and with their summed sizes as its own.
    pub open spec fn scan(self, name: Seq<char>, path: Seq<char>) -> NodeView
        decreases self,
    {
        match self {
            FsTree::File { len } => NodeView {
                name,
                path,
                size: self.found().bytes(),
                is_dir: false,
                children: Seq::empty(),
            },
            FsTree::Directory { entries } => {
                let children = match entries {
                    Some(es) => scans(es),
                    None => Seq::empty(),
                };
                NodeView {
                    name,
                    path,
                    size: total_size(children) as u64,
                    is_dir: true,
                    children: sort_desc(children),
                }
            },
        }
    }

    /// The visits that a scan of this place consists of, in order: this
    /// place first, then what lies below it, entry by entry.
    pub open spec fn visits(self, path: Seq<char>) -> Seq<Visit>
        decreases self,
    {
        seq![Visit { path, found: self.found() }] + match self {
            FsTree::Directory { entries: Some(es) } => visits_in(es),
            _ => Seq::empty(),
        }
    }
}

/// The scans of `entries`, in the order of the listing, symbolic links left
/// out.
pub open spec fn scans(entries: Seq<FsEntry>) -> Seq<NodeView>
    decreases entries,
{
    if entries.len() == 0 {
        Seq::empty()
    } else {
        let first = entries.first();
        let rest = scans(entries.drop_first());
        if first.entry.is_symlink {
            rest
        } else {
            seq![first.below.scan(first.entry.name, first.entry.path)] + rest
        }
    }
}

/// The visits that the scans of `entries` consist of, in order.
pub open spec fn visits_in(entries: Seq<FsEntry>) -> Seq<Visit>
    decreases entries,
{
    if entries.len() == 0 {
        Seq::empty()
    } else {
        let first = entries.first();
        let rest = visits_in(entries.drop_first());
        if first.entry.is_symlink {
            rest
        } else {
            first.below.visits(first.entry.path) + rest
        }
    }
}

/// The file bytes that `visits` find.
pub open spec fn bytes_of(visits: Seq<Visit>) -> nat
    decreases visits.len(),
{
    if visits.len() == 0 {
        0
    } else {
        bytes_of(visits.drop_last()) + visits.last().found.bytes() as nat
    }
}

/// The counters after `visits`, starting from `progress`.
pub open spec fn tally(progress: ProgressView, visits: Seq<Visit>) -> ProgressView
    decreases visits.len(),
{
    if visits.len() == 0 {
        progress
    } else {
        tally(progress, visits.drop_last()).after_visit(
            visits.last().path,
            visits.last().found.bytes(),
        )
    }
}

/// One snapshot for each of `visits`: the counters as they stand after it.
pub open spec fn snapshots(progress: ProgressView, visits: Seq<Visit>) -> Seq<MessageView>
    decreases visits.len(),
{
    if visits.len() == 0 {
        Seq::empty()
    } else {
        snapshots(progress, visits.drop_last()).push(MessageView::Progress(tally(progress, visits)))
    }
}

/// Whether the counters `progress` can count `visits` without overflow.
pub open spec fn fits(progress: ProgressView, visits: Seq<Visit>) -> bool {
    &&& progress.files_scanned + visits.len() <= u64::MAX
    &&& progress.bytes_scanned + bytes_of(visits) <= u64::MAX
}

/// What a walker has come to after a run of visits.
pub struct Trace {
    /// The walker as it stands.
    pub state: WalkerView,
    /// Every message produced, in order.
    pub messages: Seq<MessageView>,
    /// Whether each visit was made while the scan ran, and at the path that
    /// the walker asked for.
    pub on_course: bool,
}

/// The walker `w` driven through `visits`.
pub open spec fn trace(w: WalkerView, visits: Seq<Visit>) -> Trace
    decreases visits.len(),
{
    if visits.len() == 0 {
        Trace { state: w, messages: Seq::empty(), on_course: true }
    } else {
        let before = trace(w, visits.drop_last());
        let visit = visits.last();
        Trace {
            state: before.state.step(visit.found),
            messages: before.messages + before.state.emits(visit.found),
            on_course: before.on_course && before.state.phase == Phase::Running
                && before.state.next_path() == visit.path,
        }
    }
}

/// Two runs of visits, one after the other.
pub open spec fn followed_by(first: Trace, second: Trace) -> Trace {
    Trace {
        state: second.state,
        messages: first.messages + second.messages,
        on_course: first.on_course && second.on_course,
    }
}

/// Driving a walker through `a + b` is driving it through `a` and what
/// comes of that through `b`.
pub proof fn lemma_trace_concat(w: WalkerView, a: Seq<Visit>, b: Seq<Visit>)
    ensures
        trace(w, a + b) == followed_by(trace(w, a), trace(trace(w, a).state, b)),
    decreases b.len(),
{
    let mid = trace(w, a);
    if b.len() > 0 {
        lemma_trace_concat(w, a, b.drop_last());
        assert((a + b).drop_last() =~= a + b.drop_last());
        let tail = trace(mid.state, b.drop_last());
        assert((mid.messages + tail.messages) + tail.state.emits(b.last().found) =~= mid.messages
            + (tail.messages + tail.state.emits(b.last().found)));
    }
}

/// The bytes found add up over runs of visits put end to end.
pub proof fn lemma_bytes_concat(a: Seq<Visit>, b: Seq<Visit>)
    ensures
        bytes_of(a + b) == bytes_of(a) + bytes_of(b),
    decreases b.len(),
{
    if b.len() > 0 {
        lemma_bytes_concat(a, b.drop_last());
        assert((a + b).drop_last() =~= a + b.drop_last());
    } else {
        assert(a + b =~= a);
    }
}

/// Counting `a + b` is counting `a` and then `b`.
pub proof fn lemma_tally_concat(progress: ProgressView, a: Seq<Visit>, b: Seq<Visit>)
    ensures
        tally(progress, a + b) == tally(tally(progress, a), b),
        snapshots(progress, a + b) == snapshots(progress, a) + snapshots(tally(progress, a), b),
    decreases b.len(),
{
    if b.len() > 0 {
        lemma_tally_concat(progress, a, b.drop_last());
        assert((a + b).drop_last() =~= a + b.drop_last());
    }
}

/// Counters that can count `visits` count each visit and each byte found.
pub proof fn lemma_tally(progress: ProgressView, visits: Seq<Visit>)
    requires
        fits(progress, visits),
    ensures
        tally(progress, visits).files_scanned == progress.files_scanned + visits.len(),
        tally(progress, visits).bytes_scanned == progress.bytes_scanned + bytes_of(visits),
        tally(progress, visits).start_time == progress.start_time,
        snapshots(progress, visits).len() == visits.len(),
    decreases visits.len(),
{
    if visits.len() > 0 {
        lemma_tally(progress, visits.drop_last());
    }
}

/// What a single visit comes to.
pub proof fn lemma_one_visit(w: WalkerView, visit: Visit)
    ensures
        bytes_of(seq![visit]) == visit.found.bytes(),
        tally(w.progress, seq![visit]) == w.progress.after_visit(visit.path, visit.found.bytes()),
        snapshots(w.progress, seq![visit]) == seq![
            MessageView::Progress(w.progress.after_visit(visit.path, visit.found.bytes())),
        ],
        trace(w, seq![visit]) == (Trace {
            state: w.step(visit.found),
            messages: w.emits(visit.found),
            on_course: w.phase == Phase::Running && w.next_path() == visit.path,
        }),
{
    reveal_with_fuel(bytes_of, 2);
    reveal_with_fuel(tally, 2);
    reveal_with_fuel(snapshots, 2);
    reveal_with_fuel(trace, 2);
}

/// The measures of a single tree, as a sequence of one.
pub proof fn lemma_one_node(node: NodeView)
    ensures
        total_size(seq![node]) == node.size,
        entries_in(seq![node]) == node.entry_count(),
        bytes_in(seq![node]) == node.file_bytes(),
        node.well_formed() ==> all_well_formed(seq![node]),
{
    reveal_with_fuel(total_size, 2);
    reveal_with_fuel(entries_in, 2);
    reveal_with_fuel(bytes_in, 2);
}

/// The measures of trees add up over sequences put end to end.
pub proof fn lemma_measures_concat(a: Seq<NodeView>, b: Seq<NodeView>)
    ensures
        total_size(a + b) == total_size(a) + total_size(b),
        entries_in(a + b) == entries_in(a) + entries_in(b),
        bytes_in(a + b) == bytes_in(a) + bytes_in(b),
        all_well_formed(a) && all_well_formed(b) ==> all_well_formed(a + b),
    decreases b.len(),
{
    if b.len() > 0 {
        lemma_measures_concat(a, b.drop_last());
        assert((a + b).drop_last() =~= a + b.drop_last());
    }
}

/// The entries to visit in a listing are its first entry, unless that is a
/// symbolic link, and the entries to visit in the rest.
pub proof fn lemma_to_visit_front(entries: Seq<FsEntry>)
    requires
        entries.len() > 0,
    ensures
        to_visit(Some(listing(entries))) == if entries.first().entry.is_symlink {
            to_visit(Some(listing(entries.drop_first())))
        } else {
            seq![entries.first().entry] + to_visit(Some(listing(entries.drop_first())))
        },
{
    let head = seq![entries.first().entry];
    let tail = listing(entries.drop_first());
    assert(listing(entries) =~= head + tail);
    Seq::filter_distributes_over_add(head, tail, is_visited());
    assert(head.filter(is_visited()) =~= if entries.first().entry.is_symlink {
        Seq::<EntryView>::empty()
    } else {
        head
    }) by {
        reveal_with_fuel(Seq::filter, 2);
    }
}

/// A listing with no entry to visit gives no visit and no node.
pub proof fn lemma_nothing_to_visit(entries: Seq<FsEntry>)
    requires
        to_visit(Some(listing(entries))).len() == 0,
    ensures
        visits_in(entries) == Seq::<Visit>::empty(),
        scans(entries) == Seq::<NodeView>::empty(),
    decreases entries.len(),
{
    if entries.len() > 0 {
        lemma_to_visit_front(entries);
        lemma_nothing_to_visit(entries.drop_first());
    }
}

/// A scan of a place whose file bytes fit 64 bits makes a well-formed tree
/// with one entry for each visit and the file bytes that the visits find.
pub proof fn lemma_scan_measures(t: FsTree, name: Seq<char>, path: Seq<char>)
    requires
        bytes_of(t.visits(path)) <= u64::MAX,
    ensures
        t.scan(name, path).well_formed(),
        t.scan(name, path).entry_count() == t.visits(path).len(),
        t.scan(name, path).file_bytes() == bytes_of(t.visits(path)),
    decreases t, 1int,
{
    let first = seq![Visit { path, found: t.found() }];
    assert(bytes_of(first) == t.found().bytes()) by {
        reveal_with_fuel(bytes_of, 2);
    }
    if let FsTree::Directory { entries } = t {
        let children = match entries {
            Some(es) => scans(es),
            None => Seq::empty(),
        };
        let rest = match entries {
            Some(es) => visits_in(es),
            None => Seq::empty(),
        };
        lemma_bytes_concat(first, rest);
        if let Some(es) = entries {
            lemma_scans_measures(es);
        }
        lemma_sort_desc(children);
        lemma_sizes_are_file_bytes(children);
    }
}

/// The scans of entries whose file bytes fit 64 bits are well-formed trees
/// with one entry for each visit and the file bytes that the visits find.
pub proof fn lemma_scans_measures(entries: Seq<FsEntry>)
    requires
        bytes_of(visits_in(entries)) <= u64::MAX,
    ensures
        all_well_formed(scans(entries)),
        entries_in(scans(entries)) == visits_in(entries).len(),
        bytes_in(scans(entries)) == bytes_of(visits_in(entries)),
    decreases entries, 0int,
{
    if entries.len() > 0 {
        let first = entries.first();
        let rest = entries.drop_first();
        if first.entry.is_symlink {
            lemma_scans_measures(rest);
        } else {
            let node = first.below.scan(first.entry.name, first.entry.path);
            lemma_bytes_concat(first.below.visits(first.entry.path), visits_in(rest));
            lemma_scan_measures(first.below, first.entry.name, first.entry.path);
            lemma_scans_measures(rest);
            lemma_measures_concat(seq![node], scans(rest));
            lemma_one_node(node);
        }
    }
}

/// The walker once `node` is handed up to the open directories `below`,
/// with the counters at `progress`.
pub open spec fn arrive(
    w: WalkerView,
    below: Seq<FrameView>,
    node: NodeView,
    progress: ProgressView,
) -> WalkerView {
    match deliver(below, node) {
        Settled::Open(frames) => WalkerView { frames, progress, ..w },
        Settled::Done(_) => w.ended(Phase::Completed, progress),
    }
}

/// The terminal message, if any, that handing `node` up to `below` produces.
pub open spec fn arrival(below: Seq<FrameView>, node: NodeView) -> Seq<MessageView> {
    match deliver(below, node) {
        Settled::Open(_) => Seq::empty(),
        Settled::Done(root) => seq![MessageView::Completed(root)],
    }
}

/// The innermost directory of `w` once the scans of `entries` have joined
/// its children and nothing is left to visit in it.
pub open spec fn closing(w: WalkerView, entries: Seq<FsEntry>) -> FrameView {
    let top = w.frames.last();
    let children = top.children + scans(entries);
    FrameView { children, size: total_size(children) as u64, pending: Seq::empty(), ..top }
}

/// A walker whose next entry is the place `t` makes exactly the visits of
/// `t`, in order, answers each with one snapshot, and then stands where
/// handing up the scan of `t` leaves it.
pub proof fn lemma_walk_tree(w: WalkerView, t: FsTree)
    requires
        w.inv(),
        w.phase == Phase::Running,
        fits(w.progress, t.visits(w.next_path())),
    ensures
        ({
            let visits = t.visits(w.next_path());
            let node = t.scan(w.next_name(), w.next_path());
            let run = trace(w, visits);
            &&& run.on_course
            &&& run.state == arrive(w, w.frames_advanced(), node, tally(w.progress, visits))
            &&& run.messages == snapshots(w.progress, visits) + arrival(w.frames_advanced(), node)
            &&& run.state.inv()
        }),
    decreases t, 1int,
{
    let name = w.next_name();
    let path = w.next_path();
    let visit = Visit { path, found: t.found() };
    let first = seq![visit];
    let rest = match t {
        FsTree::Directory { entries: Some(es) } => visits_in(es),
        _ => Seq::empty(),
    };
    lemma_tally_concat(w.progress, first, rest);
    lemma_bytes_concat(first, rest);
    lemma_one_visit(w, visit);
    lemma_step_keeps_inv(w, visit.found);
    lemma_trace_concat(w, first, rest);
    lemma_frames_advanced(w);
    if let FsTree::Directory { entries } = t {
        let frame = FrameView::opened(name, path, visit.found->entries);
        if frame.pending.len() > 0 {
            let entered = trace(w, first).state;
            assert(entered.frames.drop_last() =~= w.frames_advanced());
            lemma_tally(w.progress, first);
            lemma_walk_entries(entered, entries->0);
        } else if let Some(es) = entries {
            lemma_nothing_to_visit(es);
        }
    }
}

/// A walker whose innermost directory has yet to visit what `entries` list
/// makes exactly the visits of those entries, in order, answers each with
/// one snapshot, and then stands where handing up that directory, closed,
/// leaves it.
pub proof fn lemma_walk_entries(w: WalkerView, entries: Seq<FsEntry>)
    requires
        w.inv(),
        w.phase == Phase::Running,
        w.frames.len() > 0,
        w.frames.last().pending == to_visit(Some(listing(entries))),
        fits(w.progress, visits_in(entries)),
    ensures
        ({
            let visits = visits_in(entries);
            let below = w.frames.drop_last();
            let node = closing(w, entries).finished();
            let run = trace(w, visits);
            &&& run.on_course
            &&& run.state == arrive(w, below, node, tally(w.progress, visits))
            &&& run.messages == snapshots(w.progress, visits) + arrival(below, node)
            &&& run.state.inv()
        }),
    decreases entries, 0int,
{
    if entries.len() == 0 {
        assert(listing(entries).filter(is_visited()) =~= Seq::<EntryView>::empty()) by {
            reveal(Seq::filter);
        }
    } else {
        let first = entries.first();
        let others = entries.drop_first();
        lemma_to_visit_front(entries);
        if first.entry.is_symlink {
            lemma_walk_entries(w, others);
        } else {
            let top = w.frames.last();
            let a = first.below.visits(first.entry.path);
            let b = visits_in(others);
            let child = first.below.scan(first.entry.name, first.entry.path);
            assert(top.pending.drop_first() =~= to_visit(Some(listing(others))));
            lemma_tally_concat(w.progress, a, b);
            lemma_bytes_concat(a, b);
            lemma_tally(w.progress, a);
            lemma_walk_tree(w, first.below);
            lemma_trace_concat(w, a, b);
            lemma_scan_measures(first.below, first.entry.name, first.entry.path);
            lemma_frames_advanced(w);
            assert(w.frames_advanced().drop_last() =~= w.frames.drop_last());
            lemma_with_child(w.frames_advanced(), child);
            assert(top.children.push(child) + scans(others) =~= top.children + scans(entries));
            if top.advanced().with_child(child).pending.len() > 0 {
                let entered = trace(w, a).state;
                assert(entered.frames.drop_last() =~= w.frames.drop_last());
                lemma_walk_entries(entered, others);
            } else {
                lemma_nothing_to_visit(others);
            }
        }
    }
}

/// A whole scan. A walker that has visited nothing, driven through the
/// visits of the place `t`, asks for exactly those visits in their order,
/// answers each with one snapshot, and ends with the scan of `t` as its
/// single terminal message. That tree is well formed; it has one entry for
/// each snapshot, and the last snapshot counts its entries and the bytes of
/// its files, which are the size of its root.
pub proof fn theorem_scan(w: WalkerView, t: FsTree)
    requires
        w.phase == Phase::Running,
        w.frames.len() == 0,
        w.progress.files_scanned == 0,
        w.progress.bytes_scanned == 0,
        fits(w.progress, t.visits(w.root_path)),
    ensures
        ({
            let visits = t.visits(w.root_path);
            let root = t.scan(w.root_name, w.root_path);
            let run = trace(w, visits);
            let last = tally(w.progress, visits);
            &&& run.on_course
            &&& run.state.phase == Phase::Completed
            &&& run.messages == snapshots(w.progress, visits).push(MessageView::Completed(root))
            &&& snapshots(w.progress, visits).len() == root.entry_count()
            &&& snapshots(w.progress, visits).last() == MessageView::Progress(last)
            &&& root.well_formed()
            &&& last.files_scanned == root.entry_count()
            &&& last.bytes_scanned == root.file_bytes()
            &&& last.bytes_scanned == root.size
        }),
{
    let visits = t.visits(w.root_path);
    let root = t.scan(w.root_name, w.root_path);
    lemma_walk_tree(w, t);
    lemma_tally(w.progress, visits);
    lemma_scan_measures(t, w.root_name, w.root_path);
    lemma_size_is_file_bytes(root);
}

/// Whatever is found on the way, a scan produces snapshots and then at most
/// one terminal message, which is the last message of all: the tree exactly
/// where the scan completed, an error exactly where it failed. While no
/// terminal message has come the scan still runs.
pub proof fn lemma_one_terminal_message(w: WalkerView, visits: Seq<Visit>)
    requires
        w.phase == Phase::Running,
    ensures
        ({
            let run = trace(w, visits);
            let ended = run.messages.len() > 0 && run.messages.last().is_terminal();
            &&& snapshots_first(run.messages)
            &&& run.state.phase == Phase::Running <==> !ended
            &&& run.state.phase == Phase::Completed <==> ended && run.messages.last() is Completed
            &&& run.state.phase == Phase::Failed <==> ended && run.messages.last() is Error
        }),
    decreases visits.len(),
{
    if visits.len() > 0 {
        lemma_one_terminal_message(w, visits.drop_last());
        let before = trace(w, visits.drop_last());
        if before.state.phase == Phase::Running {
            assert forall|i: int| 0 <= i < before.messages.len() implies (
            #[trigger] before.messages[i]) is Progress by {}
        }
    }
}

/// Every message among the snapshots of a run of visits is a snapshot.
pub proof fn lemma_snapshots_are_progress(progress: ProgressView, visits: Seq<Visit>)
    ensures
        snapshots(progress, visits).len() == visits.len(),
        forall|i: int|
            0 <= i < visits.len() ==> (#[trigger] snapshots(progress, visits)[i]) is Progress,
    decreases visits.len(),
{
    if visits.len() > 0 {
        lemma_snapshots_are_progress(progress, visits.drop_last());
    }
}

/// A whole scan as its session sees it. A running session that takes in
/// every message of the scan of the place `t` ends completed: it holds the
/// scan of `t` as its tree, no error, and the last snapshot, whose counters
/// are the entries of that tree and the bytes of its files.
pub proof fn theorem_session(session: SessionView, w: WalkerView, t: FsTree)
    requires
        session.state == SessionState::Running,
        w.phase == Phase::Running,
        w.frames.len() == 0,
        w.progress.files_scanned == 0,
        w.progress.bytes_scanned == 0,
        fits(w.progress, t.visits(w.root_path)),
    ensures
        ({
            let root = t.scan(w.root_name, w.root_path);
            let end = session.received_all(trace(w, t.visits(w.root_path)).messages);
            &&& end.state == SessionState::Completed
            &&& end.root == Some(root)
            &&& end.error == session.error
            &&& end.progress == tally(w.progress, t.visits(w.root_path))
            &&& end.progress.files_scanned == root.entry_count()
            &&& end.progress.bytes_scanned == root.file_bytes()
        }),
{
    let visits = t.visits(w.root_path);
    let root = t.scan(w.root_name, w.root_path);
    let seen = snapshots(w.progress, visits);
    theorem_scan(w, t);
    lemma_snapshots_are_progress(w.progress, visits);
    lemma_snapshots_received(session, seen);
    let last = seq![MessageView::Completed(root)];
    assert(seen.push(MessageView::Completed(root)) =~= seen + last);
    lemma_received_concat(session, seen, last);
    reveal_with_fuel(SessionView::received_all, 2);
}

/// Two scans of the same place, whenever they are made, hand out the same
/// tree: the same sizes and the same order of children throughout.
pub proof fn theorem_rescan(first: WalkerView, second: WalkerView, t: FsTree)
    requires
        first.phase == Phase::Running && second.phase == Phase::Running,
        first.frames.len() == 0 && second.frames.len() == 0,
        first.progress.files_scanned == 0 && second.progress.files_scanned == 0,
        first.progress.bytes_scanned == 0 && second.progress.bytes_scanned == 0,
        first.root_name == second.root_name,
        first.root_path == second.root_path,
        fits(first.progress, t.visits(first.root_path)),
    ensures
        trace(first, t.visits(first.root_path)).messages.last() == trace(
            second,
            t.visits(second.root_path),
        ).messages.last(),
        trace(first, t.visits(first.root_path)).messages.last() == MessageView::Completed(
            t.scan(first.root_name, first.root_path),
        ),
{
    theorem_scan(first, t);
    theorem_scan(second, t);
}

/// No symbolic link comes into a scan: each child of a scanned directory is
/// the scan of an entry of the listing that is no symbolic link, and each
/// such entry has its scan among the children.
pub proof fn lemma_scans_skip_symlinks(entries: Seq<FsEntry>)
    ensures
        forall|k: int|
            0 <= k < scans(entries).len() ==> exists|j: int|
                0 <= j < entries.len() && !entries[j].entry.is_symlink && (
                #[trigger] scans(entries)[k]) == (#[trigger] entries[j]).below.scan(
                    entries[j].entry.name,
                    entries[j].entry.path,
                ),
        forall|j: int|
            0 <= j < entries.len() && !(#[trigger] entries[j]).entry.is_symlink ==> scans(
                entries,
            ).contains(entries[j].below.scan(entries[j].entry.name, entries[j].entry.path)),
        scans(entries).len() == to_visit(Some(listing(entries))).len(),
    decreases entries.len(),
{
    if entries.len() > 0 {
        let rest = entries.drop_first();
        let all = scans(entries);
        lemma_scans_skip_symlinks(rest);
        lemma_to_visit_front(entries);
        let shift: int = if entries.first().entry.is_symlink {
            0
        } else {
            1
        };
        assert forall|k: int| 0 <= k < all.len() implies exists|j: int|
            0 <= j < entries.len() && !entries[j].entry.is_symlink && (#[trigger] all[k]) == (
            #[trigger] entries[j]).below.scan(entries[j].entry.name, entries[j].entry.path) by {
            if k >= shift {
                let j = choose|j: int|
                    0 <= j < rest.len() && !rest[j].entry.is_symlink && (#[trigger] scans(
                        rest,
                    )[k - shift]) == (#[trigger] rest[j]).below.scan(
                        rest[j].entry.name,
                        rest[j].entry.path,
                    );
                assert(entries[j + 1] == rest[j]);
            }
        }
        assert forall|j: int|
            0 <= j < entries.len() && !(#[trigger] entries[j]).entry.is_symlink implies all.contains(
            entries[j].below.scan(entries[j].entry.name, entries[j].entry.path),
        ) by {
            let node = entries[j].below.scan(entries[j].entry.name, entries[j].entry.path);
            if j == 0 {
                assert(all[0] == node);
            } else {
                assert(rest[j - 1] == entries[j]);
                let k = choose|k: int| 0 <= k < scans(rest).len() && scans(rest)[k] == node;
                assert(all[k + shift] == node);
            }
        }
    }
}

} // verus!
