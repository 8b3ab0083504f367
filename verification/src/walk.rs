//! The scan as a state machine over mathematical values: the open
//! directories, the counters, and what each visit makes of them.

use vstd::prelude::*;
use crate::node::{NodeView, all_well_formed, bytes_in, entries_in, total_size};
use crate::order::sort_desc;
use crate::progress::{MessageView, ProgressView};

verus! {

/// The mathematical value of a [`crate::walker::DirEntry`].
pub struct EntryView {
    pub name: Seq<char>,
    pub path: Seq<char>,
    pub is_symlink: bool,
}

/// The mathematical value of a [`crate::walker::Found`].
pub enum FoundView {
    File { len: Option<u64> },
    Directory { entries: Option<Seq<EntryView>> },
}

impl FoundView {
    /// The bytes that a visit adds to the byte counter: the length of a file
    /// whose metadata could be read, and nothing otherwise.
    pub open spec fn bytes(self) -> u64 {
        match self {
            FoundView::File { len: Some(n) } => n,
            _ => 0,
        }
    }
}

/// Which entries of a listing are visited: all but the symbolic links.
pub open spec fn is_visited() -> spec_fn(EntryView) -> bool {
    |e: EntryView| !e.is_symlink
}

/// The entries of a listing that are visited, in the order of the listing.
/// A directory that cannot be listed has none.
pub open spec fn to_visit(entries: Option<Seq<EntryView>>) -> Seq<EntryView> {
    match entries {
        Some(listing) => listing.filter(is_visited()),
        None => Seq::empty(),
    }
}

/// Where a scan stands.
#[derive(Clone, Copy, Debug, PartialEq, Eq, Structural)]
pub enum Phase {
    /// Entries are still to be visited.
    Running,
    /// Every entry was visited and the root handed out.
    Completed,
    /// A fault ended the scan.
    Failed,
}

/// A directory whose entries are being visited.
pub struct FrameView {
    pub name: Seq<char>,
    pub path: Seq<char>,
    /// The summed sizes of `children`.
    pub size: u64,
    /// The finished children, in the order of their visits.
    pub children: Seq<NodeView>,
    /// The entries still to visit, next first.
    pub pending: Seq<EntryView>,
}

impl FrameView {
    /// The frame of a directory just entered.
    pub open spec fn opened(
        name: Seq<char>,
        path: Seq<char>,
        entries: Option<Seq<EntryView>>,
    ) -> FrameView {
        FrameView { name, path, size: 0, children: Seq::empty(), pending: to_visit(entries) }
    }

    /// This frame with its next entry taken off.
    pub open spec fn advanced(self) -> FrameView {
        FrameView { pending: self.pending.drop_first(), ..self }
    }

    /// This frame with one more finished child. Under the invariant of a
    /// scan the new size is the sum, exactly.
    pub open spec fn with_child(self, child: NodeView) -> FrameView {
        FrameView {
            size: (self.size + child.size) as u64,
            children: self.children.push(child),
            ..self
        }
    }

    /// The finished directory: its children ordered by size, largest first.
    pub open spec fn finished(self) -> NodeView {
        NodeView {
            name: self.name,
            path: self.path,
            size: self.size,
            is_dir: true,
            children: sort_desc(self.children),
        }
    }
}

/// What becomes of the open directories when a finished node is handed up.
pub enum Settled {
    /// Directories remain open.
    Open(Seq<FrameView>),
    /// The node was the root.
    Done(NodeView),
}

/// Hands the finished `node` to the innermost open directory of `frames`,
/// and closes each directory that has no entry left to visit, handing it up
/// in turn.
pub open spec fn deliver(frames: Seq<FrameView>, node: NodeView) -> Settled
    decreases frames.len(),
{
    if frames.len() == 0 {
        Settled::Done(node)
    } else {
        let parent = frames.last().with_child(node);
        if parent.pending.len() > 0 {
            Settled::Open(frames.drop_last().push(parent))
        } else {
            deliver(frames.drop_last(), parent.finished())
        }
    }
}

/// The reason reported when a counter no longer fits 64 bits.
pub open spec fn overflow_reason() -> Seq<char> {
    "scan totals overflowed"@
}

/// The mathematical value of a [`crate::walker::Walker`].
pub struct WalkerView {
    pub phase: Phase,
    pub root_name: Seq<char>,
    pub root_path: Seq<char>,
    /// The open directories, outermost first. Empty before the root is
    /// visited and once the scan has ended.
    pub frames: Seq<FrameView>,
    pub progress: ProgressView,
}

impl WalkerView {
    /// The name of the entry to visit next.
    pub open spec fn next_name(self) -> Seq<char> {
        if self.frames.len() == 0 {
            self.root_name
        } else {
            self.frames.last().pending.first().name
        }
    }

    /// The path of the entry to visit next.
    pub open spec fn next_path(self) -> Seq<char> {
        if self.frames.len() == 0 {
            self.root_path
        } else {
            self.frames.last().pending.first().path
        }
    }

    /// The open directories once the next entry is taken off the innermost.
    pub open spec fn frames_advanced(self) -> Seq<FrameView> {
        if self.frames.len() == 0 {
            self.frames
        } else {
            self.frames.drop_last().push(self.frames.last().advanced())
        }
    }

    /// What the visit of the next entry makes of the open directories.
    pub open spec fn settle(self, found: FoundView) -> Settled {
        match found {
            FoundView::File { len } => deliver(
                self.frames_advanced(),
                NodeView {
                    name: self.next_name(),
                    path: self.next_path(),
                    size: found.bytes(),
                    is_dir: false,
                    children: Seq::empty(),
                },
            ),
            FoundView::Directory { entries } => {
                let frame = FrameView::opened(self.next_name(), self.next_path(), entries);
                if frame.pending.len() > 0 {
                    Settled::Open(self.frames_advanced().push(frame))
                } else {
                    deliver(self.frames_advanced(), frame.finished())
                }
            },
        }
    }

    /// This walker, ended in `phase`.
    pub open spec fn ended(self, phase: Phase, progress: ProgressView) -> WalkerView {
        WalkerView { phase, frames: Seq::empty(), progress, ..self }
    }

    /// The walker after the visit of its next entry.
    pub open spec fn step(self, found: FoundView) -> WalkerView {
        if self.phase != Phase::Running {
            self
        } else if !self.progress.admits(found.bytes()) {
            self.ended(Phase::Failed, self.progress)
        } else {
            let progress = self.progress.after_visit(self.next_path(), found.bytes());
            match self.settle(found) {
                Settled::Open(frames) => WalkerView { frames, progress, ..self },
                Settled::Done(_) => self.ended(Phase::Completed, progress),
            }
        }
    }

    /// The messages that the visit of the next entry produces, in order.
    pub open spec fn emits(self, found: FoundView) -> Seq<MessageView> {
        if self.phase != Phase::Running {
            Seq::empty()
        } else if !self.progress.admits(found.bytes()) {
            seq![MessageView::Error(overflow_reason())]
        } else {
            let progress = self.progress.after_visit(self.next_path(), found.bytes());
            match self.settle(found) {
                Settled::Open(_) => seq![MessageView::Progress(progress)],
                Settled::Done(root) => seq![
                    MessageView::Progress(progress),
                    MessageView::Completed(root),
                ],
            }
        }
    }
}

/// The entries counted while the directories `frames` were entered and
/// their finished children visited.
pub open spec fn visited_in(frames: Seq<FrameView>) -> nat
    decreases frames.len(),
{
    if frames.len() == 0 {
        0
    } else {
        visited_in(frames.drop_last()) + 1 + entries_in(frames.last().children)
    }
}

/// The file bytes counted while the finished children of `frames` were
/// visited.
pub open spec fn bytes_seen_in(frames: Seq<FrameView>) -> nat
    decreases frames.len(),
{
    if frames.len() == 0 {
        0
    } else {
        bytes_seen_in(frames.drop_last()) + bytes_in(frames.last().children)
    }
}

impl FrameView {
    /// The invariant of an open directory: its size is that of its finished
    /// children, each of them is well formed, and no symbolic link waits to
    /// be visited.
    pub open spec fn inv(self) -> bool {
        &&& self.size == total_size(self.children)
        &&& all_well_formed(self.children)
        &&& forall|i: int| 0 <= i < self.pending.len() ==> !(#[trigger] self.pending[i]).is_symlink
    }
}

/// Whether every frame of `frames` meets its invariant.
pub open spec fn all_inv(frames: Seq<FrameView>) -> bool {
    forall|i: int| 0 <= i < frames.len() ==> (#[trigger] frames[i]).inv()
}

impl WalkerView {
    /// The invariant of a scan. While it runs, the innermost open directory
    /// has an entry left to visit, and the counters hold exactly what was
    /// visited; once it has ended, no directory is open.
    pub open spec fn inv(self) -> bool {
        &&& all_inv(self.frames)
        &&& self.phase == Phase::Running ==> {
            &&& self.frames.len() > 0 ==> self.frames.last().pending.len() > 0
            &&& self.progress.files_scanned == visited_in(self.frames)
            &&& self.progress.bytes_scanned == bytes_seen_in(self.frames)
        }
        &&& self.phase != Phase::Running ==> self.frames.len() == 0
    }
}

} // verus!
