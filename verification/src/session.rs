//! One scan as seen by whoever waits for it: the receiving end of the
//! channel, and the state that the received messages lead through.

use crossbeam_channel::Receiver;
use vstd::prelude::*;
use crate::node::{FileNode, NodeView};
use crate::progress::{MessageView, ProgressView, ScanMessage, ScanProgress, snapshots_first};

verus! {

/// `crossbeam_channel::Receiver`, the receiving end of a channel. Nothing of
/// what it holds is visible here.
#[verifier::external_type_specification]
#[verifier::external_body]
#[verifier::reject_recursive_types(T)]
pub struct ExReceiver<T>(Receiver<T>);

/// The receiving end of a scan that runs elsewhere.
pub struct Scanner {
    rx: Receiver<ScanMessage>,
}

impl Scanner {
    /// The channel end that this scanner receives from.
    pub closed spec fn receiver(self) -> Receiver<ScanMessage> {
        self.rx
    }

    /// A scanner that receives what is sent into the other end of `rx`.
    pub fn new(rx: Receiver<ScanMessage>) -> (scanner: Scanner)
        ensures
            scanner.receiver() == rx,
    {
        Scanner { rx }
    }

    /// Takes the oldest message that waits in the channel, through
    /// `crossbeam_channel::Receiver::try_recv`, without blocking. `None`
    /// means that none waits now, or that the sending side is gone and the
    /// channel is empty. Which message comes, and whether one comes,
    /// depends on the sender: nothing is claimed of the result.
    #[verifier::external_body]
    pub fn try_recv(&self) -> (message: Option<ScanMessage>) {
        self.rx.try_recv().ok()
    }
}

/// The states of a session.
#[derive(Clone, Copy, Debug, PartialEq, Eq, Structural)]
pub enum SessionState {
    /// Constructed, not started.
    Created,
    /// The scan is under way.
    Running,
    /// The scan handed out its tree.
    Completed,
    /// The scan ended in an error.
    Failed,
}

/// The mathematical value of a [`ScanSession`].
pub struct SessionView {
    pub state: SessionState,
    /// The channel end that messages are taken from, while the scan runs.
    pub source: Option<Receiver<ScanMessage>>,
    /// The snapshot received last.
    pub progress: ProgressView,
    /// The tree, once the scan has completed.
    pub root: Option<NodeView>,
    /// The reason, once the scan has failed.
    pub error: Option<Seq<char>>,
}

impl SessionView {
    /// Whether the session has ended.
    pub open spec fn is_terminal(self) -> bool {
        self.state == SessionState::Completed || self.state == SessionState::Failed
    }

    /// The session once it is started on the scan that sends to `source`.
    pub open spec fn started(self, source: Receiver<ScanMessage>) -> SessionView {
        if self.state == SessionState::Created {
            SessionView { state: SessionState::Running, source: Some(source), ..self }
        } else {
            self
        }
    }

    /// The session after one message. Only a running session takes
    /// messages in: a snapshot replaces the one before it, and a terminal
    /// message ends the session and lets go of the channel.
    pub open spec fn received(self, message: MessageView) -> SessionView {
        if self.state != SessionState::Running {
            self
        } else {
            match message {
                MessageView::Progress(progress) => SessionView { progress, ..self },
                MessageView::Completed(root) => SessionView {
                    state: SessionState::Completed,
                    source: None,
                    root: Some(root),
                    ..self
                },
                MessageView::Error(reason) => SessionView {
                    state: SessionState::Failed,
                    source: None,
                    error: Some(reason),
                    ..self
                },
            }
        }
    }

    /// The session after the messages `messages`, taken in order.
    pub open spec fn received_all(self, messages: Seq<MessageView>) -> SessionView
        decreases messages.len(),
    {
        if messages.len() == 0 {
            self
        } else {
            self.received_all(messages.drop_last()).received(messages.last())
        }
    }
}

/// No message leads out of a terminal state, and none starts a session:
/// the states follow one another as `Created`, `Running`, and then
/// `Completed` or `Failed`.
pub proof fn lemma_states_in_order(session: SessionView, message: MessageView)
    ensures
        session.state != SessionState::Running ==> session.received(message) == session,
        session.state == SessionState::Running ==> session.received(message).state == (
        match message {
            MessageView::Progress(_) => SessionState::Running,
            MessageView::Completed(_) => SessionState::Completed,
            MessageView::Error(_) => SessionState::Failed,
        }),
        forall|source: Receiver<ScanMessage>|
            (#[trigger] session.started(source)).state == SessionState::Running <==> session.state
                == SessionState::Created || session.state == SessionState::Running,
{
}

/// A session that has ended stays as it is, whatever is still sent.
pub proof fn lemma_terminal_is_final(session: SessionView, messages: Seq<MessageView>)
    requires
        session.is_terminal(),
    ensures
        session.received_all(messages) == session,
    decreases messages.len(),
{
    if messages.len() > 0 {
        lemma_terminal_is_final(session, messages.drop_last());
    }
}

/// Taking in `a + b` is taking in `a` and then `b`.
pub proof fn lemma_received_concat(session: SessionView, a: Seq<MessageView>, b: Seq<MessageView>)
    ensures
        session.received_all(a + b) == session.received_all(a).received_all(b),
    decreases b.len(),
{
    if b.len() > 0 {
        lemma_received_concat(session, a, b.drop_last());
        assert((a + b).drop_last() =~= a + b.drop_last());
    }
}

/// A running session that takes in snapshots alone keeps running and holds
/// the last of them.
pub proof fn lemma_snapshots_received(session: SessionView, messages: Seq<MessageView>)
    requires
        session.state == SessionState::Running,
        forall|i: int| 0 <= i < messages.len() ==> (#[trigger] messages[i]) is Progress,
    ensures
        session.received_all(messages) == (SessionView {
            progress: if messages.len() == 0 {
                session.progress
            } else {
                messages.last()->Progress_0
            },
            ..session
        }),
    decreases messages.len(),
{
    if messages.len() > 0 {
        lemma_snapshots_received(session, messages.drop_last());
    }
}

/// One scan attempt, from construction to its terminal state.
pub struct ScanSession {
    state: SessionState,
    scanner: Option<Scanner>,
    progress: ScanProgress,
    root: Option<FileNode>,
    error: Option<String>,
}

impl View for ScanSession {
    type V = SessionView;

    closed spec fn view(&self) -> SessionView {
        SessionView {
            state: self.state,
            source: match self.scanner {
                Some(scanner) => Some(scanner.receiver()),
                None => None,
            },
            progress: self.progress@,
            root: match self.root {
                Some(root) => Some(root@),
                None => None,
            },
            error: match self.error {
                Some(reason) => Some(reason@),
                None => None,
            },
        }
    }
}

impl ScanSession {
    /// A session that has not started: no channel, no tree, no error, and
    /// a snapshot with its counters at zero and no path.
    pub fn new() -> (session: ScanSession)
        ensures
            session@.state == SessionState::Created,
            session@.source is None,
            session@.root is None,
            session@.error is None,
            session@.progress.files_scanned == 0,
            session@.progress.bytes_scanned == 0,
            session@.progress.current_path == Seq::<char>::empty(),
    {
        ScanSession {
            state: SessionState::Created,
            scanner: None,
            progress: ScanProgress::default(),
            root: None,
            error: None,
        }
    }

    /// Starts the session on the scan whose messages `scanner` receives.
    /// Returns whether it started: a session starts once, from `Created`.
    pub fn start(&mut self, scanner: Scanner) -> (started: bool)
        ensures
            started == (old(self)@.state == SessionState::Created),
            final(self)@ == old(self)@.started(scanner.receiver()),
    {
        match self.state {
            SessionState::Created => {
                self.state = SessionState::Running;
                self.scanner = Some(scanner);
                true
            },
            _ => false,
        }
    }

    /// Takes in one message of the scan.
    pub fn receive(&mut self, message: ScanMessage)
        ensures
            final(self)@ == old(self)@.received(message@),
    {
        match self.state {
            SessionState::Running => {},
            _ => {
                return ;
            },
        }
        match message {
            ScanMessage::Progress(progress) => {
                self.progress = progress;
            },
            ScanMessage::Completed(root) => {
                self.root = Some(root);
                self.state = SessionState::Completed;
                self.scanner = None;
            },
            ScanMessage::Error(reason) => {
                self.error = Some(reason);
                self.state = SessionState::Failed;
                self.scanner = None;
            },
        }
    }

    /// Takes in the messages that wait, oldest first, and at most `limit` of
    /// them; stops behind a terminal message. Never blocks. Returns how many
    /// messages were taken in.
    pub fn poll(&mut self, limit: usize) -> (taken: usize)
        ensures
            taken <= limit,
            old(self)@.state != SessionState::Running ==> taken == 0,
            exists|messages: Seq<MessageView>|
                messages.len() == taken && snapshots_first(messages) && final(self)@
                    == #[trigger] old(self)@.received_all(messages),
    {
        let mut taken: usize = 0;
        let ghost mut seen: Seq<MessageView> = Seq::empty();
        while taken < limit
            invariant
                taken <= limit,
                seen.len() == taken,
                self@ == old(self)@.received_all(seen),
                old(self)@.state != SessionState::Running ==> taken == 0,
                snapshots_first(seen),
                self@.state == SessionState::Running ==> forall|i: int|
                    0 <= i < seen.len() ==> (#[trigger] seen[i]) is Progress,
            decreases limit - taken,
        {
            let next = match self.state {
                SessionState::Running => match &self.scanner {
                    Some(scanner) => scanner.try_recv(),
                    None => None,
                },
                _ => None,
            };
            match next {
                None => {
                    break ;
                },
                Some(message) => {
                    proof {
                        let before = seen;
                        seen = before.push(message@);
                        assert(seen.drop_last() =~= before);
                    }
                    self.receive(message);
                    taken = taken + 1;
                },
            }
        }
        taken
    }

    /// The state of the session.
    pub fn state(&self) -> (state: SessionState)
        ensures
            state == self@.state,
    {
        self.state
    }

    /// Whether the scan is under way.
    pub fn is_scanning(&self) -> (scanning: bool)
        ensures
            scanning == (self@.state == SessionState::Running),
    {
        match self.state {
            SessionState::Running => true,
            _ => false,
        }
    }

    /// The snapshot received last.
    pub fn progress(&self) -> (progress: &ScanProgress)
        ensures
            progress@ == self@.progress,
    {
        &self.progress
    }

    /// The tree of a completed scan.
    pub fn root(&self) -> (root: Option<&FileNode>)
        ensures
            match root {
                Some(node) => self@.root == Some(node@),
                None => self@.root is None,
            },
    {
        self.root.as_ref()
    }

    /// The reason of a failed scan.
    pub fn error(&self) -> (reason: Option<&String>)
        ensures
            match reason {
                Some(text) => self@.error == Some(text@),
                None => self@.error is None,
            },
    {
        self.error.as_ref()
    }
}

} // verus!
