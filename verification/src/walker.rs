//! The directory walker: a depth-first scan advanced one visit at a time.
//! Whoever drives it looks at the filesystem; the walker decides what to
//! look at next and what follows from what was found.

use vstd::prelude::*;
use crate::node::{FileNode, lemma_views_of, views_of};
use crate::order::sort_by_size;
use crate::progress::{MessageView, ProgressView, ScanMessage, ScanProgress, message_views};
use crate::walk::{
    EntryView, FoundView, FrameView, Phase, Settled, WalkerView, all_inv, bytes_seen_in, deliver,
    is_visited, overflow_reason, to_visit,
};
use crate::walk_proofs::{
    lemma_finished, lemma_frames_advanced, lemma_opened, lemma_size_is_file_bytes,
    lemma_sizes_are_file_bytes, lemma_step_keeps_inv, lemma_with_child,
};

verus! {

/// One entry of a directory listing.
#[derive(Debug)]
pub struct DirEntry {
    pub name: String,
    pub path: String,
    pub is_symlink: bool,
}

impl View for DirEntry {
    type V = EntryView;

    open spec fn view(&self) -> EntryView {
        EntryView { name: self.name@, path: self.path@, is_symlink: self.is_symlink }
    }
}

/// The views of a sequence of entries, in order.
pub open spec fn entry_views(entries: Seq<DirEntry>) -> Seq<EntryView> {
    entries.map_values(|e: DirEntry| e@)
}

/// What was found at the path the walker asked about.
#[derive(Debug)]
pub enum Found {
    /// Not a directory. `len` is the file's length, or `None` where its
    /// metadata cannot be read.
    File { len: Option<u64> },
    /// A directory. `entries` is its listing, or `None` where it cannot be
    /// listed.
    Directory { entries: Option<Vec<DirEntry>> },
}

impl View for Found {
    type V = FoundView;

    open spec fn view(&self) -> FoundView {
        match self {
            Found::File { len } => FoundView::File { len: *len },
            Found::Directory { entries } => FoundView::Directory {
                entries: match entries {
                    Some(listing) => Some(entry_views(listing@)),
                    None => None,
                },
            },
        }
    }
}

/// An open directory. `pending` holds the entries still to visit, the next
/// one last.
struct Frame {
    name: String,
    path: String,
    size: u64,
    children: Vec<FileNode>,
    pending: Vec<DirEntry>,
}

impl View for Frame {
    type V = FrameView;

    closed spec fn view(&self) -> FrameView {
        FrameView {
            name: self.name@,
            path: self.path@,
            size: self.size,
            children: views_of(self.children@),
            pending: entry_views(self.pending@).reverse(),
        }
    }
}

spec fn frame_views(frames: Seq<Frame>) -> Seq<FrameView> {
    frames.map_values(|f: Frame| f@)
}

/// What handing a node up came to: directories remain open, or the node
/// was the root.
enum Handed {
    Open,
    Done(FileNode),
}

/// The entries of a listing that are visited, the first of them last.
fn visit_stack(entries: Option<Vec<DirEntry>>) -> (stack: Vec<DirEntry>)
    ensures
        entry_views(stack@).reverse() == to_visit(
            match entries {
                Some(listing) => Some(entry_views(listing@)),
                None => None,
            },
        ),
{
    let mut stack: Vec<DirEntry> = Vec::new();
    match entries {
        None => {},
        Some(listing) => {
            let mut listing = listing;
            let ghost all = entry_views(listing@);
            while listing.len() > 0
                invariant
                    all.filter(is_visited()) == entry_views(listing@).filter(is_visited())
                        + entry_views(stack@).reverse(),
                decreases listing.len(),
            {
                let ghost before = listing@;
                let entry = listing.pop().unwrap();
                proof {
                    reveal(Seq::filter);
                    assert(entry_views(before).drop_last() =~= entry_views(listing@));
                }
                if !entry.is_symlink {
                    stack.push(entry);
                }
            }
            proof {
                reveal(Seq::filter);
            }
        },
    }
    stack
}

/// Hands the finished `node` to the innermost open directory and closes
/// every directory that has nothing left to visit.
fn hand_up(frames: &mut Vec<Frame>, finished: FileNode) -> (handed: Handed)
    requires
        all_inv(frame_views(old(frames)@)),
        finished@.well_formed(),
        bytes_seen_in(frame_views(old(frames)@)) + finished@.file_bytes() <= u64::MAX,
    ensures
        match deliver(frame_views(old(frames)@), finished@) {
            Settled::Open(rest) => handed is Open && frame_views(final(frames)@) == rest,
            Settled::Done(root) => (handed matches Handed::Done(n) && n@ == root)
                && final(frames)@.len() == 0,
        },
{
    let mut node = finished;
    loop
        invariant
            deliver(frame_views(frames@), node@) == deliver(
                frame_views(old(frames)@),
                finished@,
            ),
            all_inv(frame_views(frames@)),
            node@.well_formed(),
            bytes_seen_in(frame_views(frames@)) + node@.file_bytes() <= u64::MAX,
        decreases frames.len(),
    {
        if frames.len() == 0 {
            return Handed::Done(node);
        }
        let ghost before = frames@;
        let ghost child = node@;
        let mut parent = frames.pop().unwrap();
        let ghost parent_before = parent@;
        proof {
            assert(frame_views(before).drop_last() =~= frame_views(frames@));
            lemma_sizes_are_file_bytes(parent_before.children);
            lemma_size_is_file_bytes(child);
            lemma_with_child(frame_views(before), child);
        }
        parent.size = parent.size + node.size;
        let ghost children_before = parent.children@;
        parent.children.push(node);
        proof {
            lemma_views_of(children_before);
            lemma_views_of(parent.children@);
            assert(views_of(parent.children@) =~= views_of(children_before).push(child));
        }
        if parent.pending.len() > 0 {
            frames.push(parent);
            return Handed::Open;
        }
        let ghost closing = parent@;
        proof {
            lemma_finished(closing);
        }
        node =
        FileNode {
            name: parent.name,
            path: parent.path,
            size: parent.size,
            is_dir: true,
            children: sort_by_size(parent.children),
        };
    }
}

/// The terminal message of a scan whose counters no longer fit 64 bits.
fn overflow_error() -> (message: ScanMessage)
    ensures
        message@ == MessageView::Error(overflow_reason()),
{
    ScanMessage::Error("scan totals overflowed".to_owned())
}

/// The walker that the given parts make up.
spec fn assembled(
    phase: Phase,
    root_name: Seq<char>,
    root_path: Seq<char>,
    frames: Seq<FrameView>,
    progress: ProgressView,
) -> WalkerView {
    WalkerView { phase, root_name, root_path, frames, progress }
}

/// One step of a walker, on its parts.
fn advance(
    phase: &mut Phase,
    root_name: &String,
    root_path: &String,
    frames: &mut Vec<Frame>,
    progress: &mut ScanProgress,
    found: Found,
) -> (messages: Vec<ScanMessage>)
    requires
        assembled(
            *old(phase),
            root_name@,
            root_path@,
            frame_views(old(frames)@),
            old(progress)@,
        ).inv(),
    ensures
        ({
            let before = assembled(
                *old(phase),
                root_name@,
                root_path@,
                frame_views(old(frames)@),
                old(progress)@,
            );
            let after = assembled(
                *final(phase),
                root_name@,
                root_path@,
                frame_views(final(frames)@),
                final(progress)@,
            );
            &&& after == before.step(found@)
            &&& after.inv()
            &&& message_views(messages@) == before.emits(found@)
        }),
{
    let ghost start = assembled(*phase, root_name@, root_path@, frame_views(frames@), progress@);
    proof {
        lemma_step_keeps_inv(start, found@);
    }
    let mut messages: Vec<ScanMessage> = Vec::new();
    match *phase {
        Phase::Running => {},
        _ => {
            return messages;
        },
    }
    let bytes = match &found {
        Found::File { len: Some(n) } => *n,
        _ => 0,
    };
    let (name, path) = if frames.len() == 0 {
        (root_name.clone(), root_path.clone())
    } else {
        let ghost before = frames@;
        let mut top = frames.pop().unwrap();
        let ghost waiting = top.pending@;
        proof {
            assert(frame_views(before).drop_last() =~= frame_views(frames@));
        }
        let entry = top.pending.pop().unwrap();
        proof {
            assert(entry_views(top.pending@).reverse() =~= entry_views(
                waiting,
            ).reverse().drop_first());
        }
        let ghost below = frames@;
        frames.push(top);
        proof {
            assert(frame_views(frames@) =~= frame_views(below).push(top@));
        }
        (entry.name, entry.path)
    };
    let snapshot = match progress.record_visit(&path, bytes) {
        Some(snapshot) => snapshot,
        None => {
            *frames = Vec::new();
            *phase = Phase::Failed;
            messages.push(overflow_error());
            proof {
                assert(frame_views(frames@) =~= Seq::<FrameView>::empty());
            }
            return messages;
        },
    };
    messages.push(ScanMessage::Progress(snapshot));
    proof {
        lemma_frames_advanced(start);
        lemma_opened(start.next_name(), start.next_path(), found@->entries);
    }
    let handed = match found {
        Found::File { len } => hand_up(
            frames,
            FileNode { name, path, size: bytes, is_dir: false, children: Vec::new() },
        ),
        Found::Directory { entries } => {
            let pending = visit_stack(entries);
            if pending.len() > 0 {
                let ghost below = frames@;
                let frame = Frame { name, path, size: 0, children: Vec::new(), pending };
                frames.push(frame);
                proof {
                    assert(frame_views(frames@) =~= frame_views(below).push(frame@));
                }
                Handed::Open
            } else {
                let empty = FileNode {
                    name,
                    path,
                    size: 0,
                    is_dir: true,
                    children: Vec::new(),
                };
                proof {
                    lemma_finished(
                        FrameView::opened(start.next_name(), start.next_path(), found@->entries),
                    );
                }
                hand_up(frames, empty)
            }
        },
    };
    match handed {
        Handed::Open => {},
        Handed::Done(root) => {
            *phase = Phase::Completed;
            messages.push(ScanMessage::Completed(root));
            proof {
                assert(frame_views(frames@) =~= Seq::<FrameView>::empty());
            }
        },
    }
    messages
}

/// A depth-first scan of one directory tree, advanced one visited entry at
/// a time.
pub struct Walker {
    phase: Phase,
    root_name: String,
    root_path: String,
    frames: Vec<Frame>,
    progress: ScanProgress,
}

impl View for Walker {
    type V = WalkerView;

    closed spec fn view(&self) -> WalkerView {
        WalkerView {
            phase: self.phase,
            root_name: self.root_name@,
            root_path: self.root_path@,
            frames: frame_views(self.frames@),
            progress: self.progress@,
        }
    }
}

impl Walker {
    /// Every walker meets the invariant of a scan.
    #[verifier::type_invariant]
    spec fn wf(&self) -> bool {
        self@.inv()
    }

    /// A scan of the tree at `path`, whose root goes by `name`; nothing is
    /// visited yet.
    pub fn new(name: String, path: String) -> (walker: Walker)
        ensures
            walker@.inv(),
            walker@.phase == Phase::Running,
            walker@.root_name == name@,
            walker@.root_path == path@,
            walker@.frames.len() == 0,
            walker@.progress.files_scanned == 0,
            walker@.progress.bytes_scanned == 0,
            walker@.progress.current_path == Seq::<char>::empty(),
    {
        Walker {
            phase: Phase::Running,
            root_name: name,
            root_path: path,
            frames: Vec::new(),
            progress: ScanProgress::default(),
        }
    }

    /// Where the scan stands.
    pub fn phase(&self) -> (phase: Phase)
        ensures
            phase == self@.phase,
    {
        self.phase
    }

    /// The counters as they stand.
    pub fn progress(&self) -> (progress: &ScanProgress)
        ensures
            progress@ == self@.progress,
    {
        &self.progress
    }

    /// The path to look at next, or `None` once the scan has ended.
    pub fn next_path(&self) -> (path: Option<&String>)
        ensures
            self@.inv(),
            match path {
                Some(p) => self@.phase == Phase::Running && p@ == self@.next_path(),
                None => self@.phase != Phase::Running,
            },
    {
        proof {
            use_type_invariant(self);
        }
        match self.phase {
            Phase::Running => {
                let depth = self.frames.len();
                if depth == 0 {
                    Some(&self.root_path)
                } else {
                    let top = &self.frames[depth - 1];
                    let waiting = top.pending.len();
                    Some(&top.pending[waiting - 1].path)
                }
            },
            _ => None,
        }
    }

    /// Takes in what was found at `next_path`. Returns the walker as it
    /// stands after the visit, and the messages to publish, in order: one
    /// snapshot for the visit, and behind it the terminal message if the
    /// visit ended the scan. Where a counter would overflow, the scan fails
    /// with the error alone. A scan that has ended stays as it is and says
    /// nothing more.
    pub fn step(self, found: Found) -> (next: (Walker, Vec<ScanMessage>))
        ensures
            self@.inv(),
            next.0@.inv(),
            next.0@ == self@.step(found@),
            message_views(next.1@) == self@.emits(found@),
    {
        proof {
            use_type_invariant(&self);
        }
        let Walker { phase, root_name, root_path, frames, progress } = self;
        let mut phase = phase;
        let mut frames = frames;
        let mut progress = progress;
        let messages = advance(&mut phase, &root_name, &root_path, &mut frames, &mut progress, found);
        (Walker { phase, root_name, root_path, frames, progress }, messages)
    }
}

} // verus!
