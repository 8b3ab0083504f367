//! Progress counters, the snapshots taken of them, and the messages a scan
//! produces.

use std::time::Instant;
use vstd::prelude::*;
use crate::node::{FileNode, NodeView};

verus! {

/// `std::time::Instant`, a reading of the monotonic clock. Nothing of what
/// it holds is visible here.
#[verifier::external_type_specification]
#[verifier::external_body]
pub struct ExInstant(Instant);

/// The counters of one scan. A value of this type is a snapshot: it shares
/// nothing with the counters it was copied from.
#[derive(Debug)]
pub struct ScanProgress {
    /// Entries visited so far, directories and files alike.
    pub files_scanned: u64,
    /// Summed lengths of the files visited so far.
    pub bytes_scanned: u64,
    /// Path of the entry visited last.
    pub current_path: String,
    /// When the scan began.
    pub start_time: Instant,
}

/// The mathematical value of a [`ScanProgress`].
pub struct ProgressView {
    pub files_scanned: u64,
    pub bytes_scanned: u64,
    pub current_path: Seq<char>,
    pub start_time: Instant,
}

impl View for ScanProgress {
    type V = ProgressView;

    open spec fn view(&self) -> ProgressView {
        ProgressView {
            files_scanned: self.files_scanned,
            bytes_scanned: self.bytes_scanned,
            current_path: self.current_path@,
            start_time: self.start_time,
        }
    }
}

impl ProgressView {
    /// Whether one more entry of `bytes` bytes can be counted.
    pub open spec fn admits(self, bytes: u64) -> bool {
        self.files_scanned < u64::MAX && self.bytes_scanned + bytes <= u64::MAX
    }

    /// The counters after a visit to the entry at `path` that found `bytes`
    /// bytes there.
    pub open spec fn after_visit(self, path: Seq<char>, bytes: u64) -> ProgressView {
        ProgressView {
            files_scanned: (self.files_scanned + 1) as u64,
            bytes_scanned: (self.bytes_scanned + bytes) as u64,
            current_path: path,
            start_time: self.start_time,
        }
    }
}

/// Reads the clock through `Instant::now`. Nothing is claimed of the
/// instant that comes back.
#[verifier::external_body]
fn now() -> Instant {
    Instant::now()
}

impl Default for ScanProgress {
    /// Counters at zero, no path, and the present instant as the start.
    fn default() -> (fresh: Self)
        ensures
            fresh.files_scanned == 0,
            fresh.bytes_scanned == 0,
            fresh.current_path@ == Seq::<char>::empty(),
    {
        ScanProgress {
            files_scanned: 0,
            bytes_scanned: 0,
            current_path: String::new(),
            start_time: now(),
        }
    }
}

impl Clone for ScanProgress {
    fn clone(&self) -> (copy: Self)
        ensures
            copy == *self,
    {
        ScanProgress {
            files_scanned: self.files_scanned,
            bytes_scanned: self.bytes_scanned,
            current_path: self.current_path.clone(),
            start_time: self.start_time,
        }
    }
}

impl ScanProgress {
    /// Counts one visited entry: one more entry, `bytes` more bytes, and
    /// `path` as the place of the visit. Returns the snapshot to publish, or
    /// `None`, with the counters untouched, where a counter would overflow.
    pub fn record_visit(&mut self, path: &String, bytes: u64) -> (snapshot: Option<ScanProgress>)
        ensures
            old(self)@.admits(bytes) ==> final(self)@ == old(self)@.after_visit(path@, bytes)
                && snapshot == Some(*final(self)),
            !old(self)@.admits(bytes) ==> *final(self) == *old(self) && snapshot is None,
    {
        let files = match self.files_scanned.checked_add(1) {
            Some(n) => n,
            None => { return None; },
        };
        let total = match self.bytes_scanned.checked_add(bytes) {
            Some(n) => n,
            None => { return None; },
        };
        self.files_scanned = files;
        self.bytes_scanned = total;
        self.current_path = path.clone();
        Some(self.clone())
    }
}

/// What a scan produces: any number of progress snapshots, then exactly one
/// of `Completed` and `Error`.
#[derive(Debug)]
pub enum ScanMessage {
    Progress(ScanProgress),
    Completed(FileNode),
    Error(String),
}

/// The mathematical value of a [`ScanMessage`].
pub enum MessageView {
    Progress(ProgressView),
    Completed(NodeView),
    Error(Seq<char>),
}

impl MessageView {
    /// Whether this message ends its scan.
    pub open spec fn is_terminal(self) -> bool {
        !(self is Progress)
    }
}

impl View for ScanMessage {
    type V = MessageView;

    open spec fn view(&self) -> MessageView {
        match self {
            ScanMessage::Progress(p) => MessageView::Progress(p@),
            ScanMessage::Completed(root) => MessageView::Completed(root@),
            ScanMessage::Error(reason) => MessageView::Error(reason@),
        }
    }
}

/// Whether every message of `messages` but the last is a snapshot: the
/// order in which a scan produces its messages.
pub open spec fn snapshots_first(messages: Seq<MessageView>) -> bool {
    forall|i: int| 0 <= i < messages.len() - 1 ==> (#[trigger] messages[i]) is Progress
}

/// The views of a sequence of messages, in order.
pub open spec fn message_views(messages: Seq<ScanMessage>) -> Seq<MessageView> {
    messages.map_values(|m: ScanMessage| m@)
}

impl ScanMessage {
    /// Whether this message ends its scan.
    pub fn is_terminal(&self) -> (terminal: bool)
        ensures
            terminal == self@.is_terminal(),
    {
        match self {
            ScanMessage::Progress(_) => false,
            _ => true,
        }
    }
}

} // verus!
