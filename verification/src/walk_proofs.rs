//! What holds of every scan: the invariant of the walker, and what it
//! implies of the tree that a scan hands out.

use vstd::prelude::*;
use crate::node::{NodeView, all_well_formed, bytes_in, entries_in, total_size};
use crate::order::lemma_sort_desc;
use crate::progress::MessageView;
use crate::walk::{
    EntryView, FoundView, FrameView, Phase, Settled, WalkerView, all_inv, bytes_seen_in, deliver,
    is_visited, visited_in,
};

verus! {

/// A directory that closes is well formed, and holds one entry more than
/// its children together and the same file bytes.
pub proof fn lemma_finished(frame: FrameView)
    requires
        frame.inv(),
    ensures
        frame.finished().well_formed(),
        frame.finished().entry_count() == 1 + entries_in(frame.children),
        frame.finished().file_bytes() == bytes_in(frame.children),
{
    lemma_sort_desc(frame.children);
}

/// The innermost open directory takes a well-formed child without its size
/// leaving 64 bits, as long as the file bytes seen still fit: it then meets
/// its invariant again, and what was counted grows by the child's entries
/// and file bytes.
pub proof fn lemma_with_child(frames: Seq<FrameView>, node: NodeView)
    requires
        all_inv(frames),
        frames.len() > 0,
        node.well_formed(),
        bytes_seen_in(frames) + node.file_bytes() <= u64::MAX,
    ensures
        frames.last().size + node.size <= u64::MAX,
        frames.last().with_child(node).inv(),
        entries_in(frames.last().with_child(node).children) == entries_in(frames.last().children)
            + node.entry_count(),
        bytes_in(frames.last().with_child(node).children) == bytes_in(frames.last().children)
            + node.file_bytes(),
{
    let parent = frames.last().with_child(node);
    lemma_sizes_are_file_bytes(frames.last().children);
    lemma_size_is_file_bytes(node);
    assert(parent.children.drop_last() =~= frames.last().children);
}

/// Handing a well-formed node up keeps every open directory's invariant and
/// accounts for each entry and each file byte of the node exactly once: in
/// the directories that stay open, or in the root that comes out.
pub proof fn lemma_deliver(frames: Seq<FrameView>, node: NodeView)
    requires
        all_inv(frames),
        node.well_formed(),
        bytes_seen_in(frames) + node.file_bytes() <= u64::MAX,
    ensures
        match deliver(frames, node) {
            Settled::Open(rest) => {
                &&& all_inv(rest)
                &&& rest.len() > 0
                &&& rest.last().pending.len() > 0
                &&& visited_in(rest) == visited_in(frames) + node.entry_count()
                &&& bytes_seen_in(rest) == bytes_seen_in(frames) + node.file_bytes()
            },
            Settled::Done(root) => {
                &&& root.well_formed()
                &&& root.entry_count() == visited_in(frames) + node.entry_count()
                &&& root.file_bytes() == bytes_seen_in(frames) + node.file_bytes()
            },
        },
    decreases frames.len(),
{
    if frames.len() > 0 {
        let below = frames.drop_last();
        let parent = frames.last().with_child(node);
        lemma_with_child(frames, node);
        if parent.pending.len() > 0 {
            let rest = below.push(parent);
            assert(rest.drop_last() =~= below);
        } else {
            lemma_finished(parent);
            lemma_deliver(below, parent.finished());
        }
    }
}

/// Taking the next entry off the innermost directory changes neither the
/// invariant of the open directories nor what was counted in them.
pub proof fn lemma_frames_advanced(w: WalkerView)
    requires
        all_inv(w.frames),
        w.frames.len() > 0 ==> w.frames.last().pending.len() > 0,
    ensures
        all_inv(w.frames_advanced()),
        visited_in(w.frames_advanced()) == visited_in(w.frames),
        bytes_seen_in(w.frames_advanced()) == bytes_seen_in(w.frames),
{
    if w.frames.len() > 0 {
        let top = w.frames.last();
        let rest = w.frames_advanced();
        assert(rest.drop_last() =~= w.frames.drop_last());
        assert forall|i: int| 0 <= i < rest.len() implies (#[trigger] rest[i]).inv() by {
            if i == rest.len() - 1 {
                let moved = top.advanced();
                assert forall|j: int| 0 <= j < moved.pending.len() implies !(
                #[trigger] moved.pending[j]).is_symlink by {
                    assert(moved.pending[j] == top.pending[j + 1]);
                }
            }
        }
    }
}

/// A directory just entered meets the invariant of an open directory: no
/// symbolic link of its listing is among the entries to visit.
pub proof fn lemma_opened(name: Seq<char>, path: Seq<char>, entries: Option<Seq<EntryView>>)
    ensures
        FrameView::opened(name, path, entries).inv(),
{
    broadcast use vstd::seq_lib::group_filter_ensures;

    let frame = FrameView::opened(name, path, entries);
    assert forall|i: int| 0 <= i < frame.pending.len() implies !(#[trigger] frame.pending[i]).is_symlink by {
        assert(is_visited()(frame.pending[i]));
    }
}

/// What a visit makes of the open directories keeps their invariant and
/// counts exactly one entry more, and the bytes that were found.
pub proof fn lemma_settle(w: WalkerView, found: FoundView)
    requires
        all_inv(w.frames),
        w.frames.len() > 0 ==> w.frames.last().pending.len() > 0,
        bytes_seen_in(w.frames) + found.bytes() <= u64::MAX,
    ensures
        match w.settle(found) {
            Settled::Open(rest) => {
                &&& all_inv(rest)
                &&& rest.len() > 0
                &&& rest.last().pending.len() > 0
                &&& visited_in(rest) == visited_in(w.frames) + 1
                &&& bytes_seen_in(rest) == bytes_seen_in(w.frames) + found.bytes()
            },
            Settled::Done(root) => {
                &&& root.well_formed()
                &&& root.entry_count() == visited_in(w.frames) + 1
                &&& root.file_bytes() == bytes_seen_in(w.frames) + found.bytes()
            },
        },
{
    lemma_frames_advanced(w);
    let below = w.frames_advanced();
    match found {
        FoundView::File { len } => {
            let leaf = NodeView {
                name: w.next_name(),
                path: w.next_path(),
                size: found.bytes(),
                is_dir: false,
                children: Seq::empty(),
            };
            lemma_deliver(below, leaf);
        },
        FoundView::Directory { entries } => {
            let frame = FrameView::opened(w.next_name(), w.next_path(), entries);
            lemma_opened(w.next_name(), w.next_path(), entries);
            if frame.pending.len() > 0 {
                let rest = below.push(frame);
                assert(rest.drop_last() =~= below);
            } else {
                lemma_finished(frame);
                lemma_deliver(below, frame.finished());
            }
        },
    }
}

/// Every step keeps the invariant of the scan.
pub proof fn lemma_step_keeps_inv(w: WalkerView, found: FoundView)
    requires
        w.inv(),
    ensures
        w.step(found).inv(),
{
    if w.phase == Phase::Running && w.progress.admits(found.bytes()) {
        lemma_settle(w, found);
    }
}

/// A scan that runs answers each visit with exactly one snapshot, which
/// counts one entry more than the one before it; a terminal message, if
/// there is one, follows that snapshot and is the last.
pub proof fn lemma_one_snapshot_per_visit(w: WalkerView, found: FoundView)
    requires
        w.phase == Phase::Running,
        w.progress.admits(found.bytes()),
    ensures
        1 <= w.emits(found).len() <= 2,
        w.emits(found)[0] == MessageView::Progress(w.step(found).progress),
        w.step(found).progress.files_scanned == w.progress.files_scanned + 1,
        w.step(found).progress.bytes_scanned == w.progress.bytes_scanned + found.bytes(),
        w.step(found).progress.current_path == w.next_path(),
        w.emits(found).len() == 2 <==> w.step(found).phase != Phase::Running,
        w.emits(found).len() == 2 ==> w.emits(found)[1].is_terminal(),
{
}

/// The tree that a scan hands out is well formed, and the last snapshot
/// before it counts exactly the entries of that tree and exactly the bytes
/// of its files.
pub proof fn lemma_completed_tree(w: WalkerView, found: FoundView, root: NodeView)
    requires
        w.inv(),
        w.emits(found).contains(MessageView::Completed(root)),
    ensures
        w.phase == Phase::Running,
        w.step(found).phase == Phase::Completed,
        w.emits(found) == seq![
            MessageView::Progress(w.step(found).progress),
            MessageView::Completed(root),
        ],
        root.well_formed(),
        w.step(found).progress.files_scanned == root.entry_count(),
        w.step(found).progress.bytes_scanned == root.file_bytes(),
{
    let messages = w.emits(found);
    let i = choose|i: int| 0 <= i < messages.len() && messages[i] == MessageView::Completed(root);
    assert(messages[i] is Completed);
    lemma_settle(w, found);
}

/// In a well-formed tree the size of the root is the summed length of the
/// files in it.
pub proof fn lemma_size_is_file_bytes(node: NodeView)
    requires
        node.well_formed(),
    ensures
        node.size == node.file_bytes(),
    decreases node,
{
    if node.is_dir {
        lemma_sizes_are_file_bytes(node.children);
    }
}

/// The sizes of well-formed trees sum to the length of the files in them.
pub proof fn lemma_sizes_are_file_bytes(nodes: Seq<NodeView>)
    requires
        all_well_formed(nodes),
    ensures
        total_size(nodes) == bytes_in(nodes),
    decreases nodes,
{
    if nodes.len() > 0 {
        lemma_size_is_file_bytes(nodes.last());
        lemma_sizes_are_file_bytes(nodes.drop_last());
    }
}

} // verus!
