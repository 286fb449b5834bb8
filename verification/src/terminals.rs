//! Running terminals: what they report, what is sent to them, and the state that
//! the interface shows.

use std::time::Instant;

use vstd::prelude::*;
use vstd::string::StringExecFns;

use crate::cpu::{green, red, Color};
use crate::text::{decimal, push_decimal};

verus! {

/// The clock reading of the standard library; it is carried and never looked
/// into.
#[verifier::external_type_specification]
#[verifier::external_body]
pub struct ExInstant(Instant);

/// What a terminal last reported.
pub struct TerminalSnapshot {
    pub pid: u32,
    pub prompt: String,
    pub text: String,
    pub last_seen: Instant,
}

impl Clone for TerminalSnapshot {
    fn clone(&self) -> (r: Self)
        ensures
            r == *self,
    {
        TerminalSnapshot {
            pid: self.pid,
            prompt: self.prompt.clone(),
            text: self.text.clone(),
            last_seen: self.last_seen,
        }
    }
}

/// A widget that a terminal shows in its output.
pub enum RichWidget {
    /// A gauge; `percent_bits` is its filling by the bits of a single, where one
    /// stands for full.
    Progress { percent_bits: u32, color: Option<String> },
    /// A button that runs `cmd`.
    Button { label: String, cmd: String },
}

/// A request of the interface to the worker that talks to the terminals.
pub enum MonitorAction {
    Refresh,
    Inject { terminal_pid: u32, widget: RichWidget },
}

/// What the worker wakes up for.
pub enum WorkerEvent {
    /// A second has passed.
    Tick,
    /// The interface asks for something.
    Action(MonitorAction),
    /// The interface is gone.
    Closed,
}

/// What the worker does next.
pub enum WorkerStep {
    Refresh,
    Inject { terminal_pid: u32, widget: RichWidget },
    Stop,
}

/// What the worker does about an event.
pub fn next_step(event: WorkerEvent) -> (r: WorkerStep)
    ensures
        r == match event {
            WorkerEvent::Tick => WorkerStep::Refresh,
            WorkerEvent::Action(MonitorAction::Refresh) => WorkerStep::Refresh,
            WorkerEvent::Action(MonitorAction::Inject { terminal_pid, widget }) => {
                WorkerStep::Inject { terminal_pid, widget }
            },
            WorkerEvent::Closed => WorkerStep::Stop,
        },
{
    match event {
        WorkerEvent::Tick => WorkerStep::Refresh,
        WorkerEvent::Action(action) => match action {
            MonitorAction::Refresh => WorkerStep::Refresh,
            MonitorAction::Inject { terminal_pid, widget } => {
                WorkerStep::Inject { terminal_pid, widget }
            },
        },
        WorkerEvent::Closed => WorkerStep::Stop,
    }
}

/// A terminal's answer.
pub enum IpcResponse {
    /// The terminal's buffer.
    BufferData { pid: u32, prompt: String, text: String },
    /// Anything else, in its debug notation.
    Other(String),
}

/// Why a terminal could not be queried.
pub enum QueryError {
    /// The terminal did not accept the connection in time.
    ConnectTimeout,
    /// The terminal answered something else than its buffer.
    Unexpected(String),
    /// The terminal closed the connection without an answer.
    StreamClosed,
}

/// The kind of an error, after those of the standard library.
#[derive(Clone, Copy, Debug, PartialEq, Eq, Structural)]
pub enum FailureKind {
    TimedOut,
    InvalidData,
    UnexpectedEof,
}

impl QueryError {
    /// The kind of the error.
    pub fn kind(&self) -> (r: FailureKind)
        ensures
            r == match *self {
                QueryError::ConnectTimeout => FailureKind::TimedOut,
                QueryError::Unexpected(_) => FailureKind::InvalidData,
                QueryError::StreamClosed => FailureKind::UnexpectedEof,
            },
    {
        match self {
            QueryError::ConnectTimeout => FailureKind::TimedOut,
            QueryError::Unexpected(_) => FailureKind::InvalidData,
            QueryError::StreamClosed => FailureKind::UnexpectedEof,
        }
    }

    /// The text of the error.
    pub fn message(&self) -> (r: String)
        ensures
            r@ == match *self {
                QueryError::ConnectTimeout => "connect timeout"@,
                QueryError::Unexpected(answer) => "unexpected response: "@ + answer@,
                QueryError::StreamClosed => "stream closed"@,
            },
    {
        match self {
            QueryError::ConnectTimeout => "connect timeout".to_owned(),
            QueryError::Unexpected(answer) => {
                "unexpected response: ".to_owned().concat(answer.as_str())
            },
            QueryError::StreamClosed => "stream closed".to_owned(),
        }
    }
}

/// What the answer to a request for the buffer says, given the time at which it
/// came; `None` stands for a connection closed without an answer.
pub fn read_answer(answer: Option<IpcResponse>, now: Instant) -> (r: Result<
    TerminalSnapshot,
    QueryError,
>)
    ensures
        r == match answer {
            Some(IpcResponse::BufferData { pid, prompt, text }) => Ok::<
                TerminalSnapshot,
                QueryError,
            >(TerminalSnapshot { pid, prompt, text, last_seen: now }),
            Some(IpcResponse::Other(answer)) => Err(QueryError::Unexpected(answer)),
            None => Err(QueryError::StreamClosed),
        },
{
    match answer {
        Some(response) => match response {
            IpcResponse::BufferData { pid, prompt, text } => Ok(
                TerminalSnapshot { pid, prompt, text, last_seen: now },
            ),
            IpcResponse::Other(answer) => Err(QueryError::Unexpected(answer)),
        },
        None => Err(QueryError::StreamClosed),
    }
}

/// What becomes of a terminal's socket after a query.
#[derive(Clone, Copy, Debug, PartialEq, Eq, Structural)]
pub enum SocketFate {
    Keep,
    Remove,
}

/// The snapshots of a round after one more terminal was queried; `None` stands
/// for a query that failed.
pub open spec fn settled(
    snapshots: Seq<TerminalSnapshot>,
    outcome: Option<TerminalSnapshot>,
) -> Seq<TerminalSnapshot> {
    match outcome {
        Some(snapshot) => snapshots.push(snapshot),
        None => snapshots,
    }
}

/// Takes the outcome of a query into a round of queries, and says what becomes of
/// the socket: that of a terminal that could not be queried is removed.
pub fn settle_query(
    snapshots: &mut Vec<TerminalSnapshot>,
    outcome: Option<TerminalSnapshot>,
) -> (r: SocketFate)
    ensures
        final(snapshots)@ == settled(old(snapshots)@, outcome),
        outcome matches Some(snapshot) ==> final(snapshots)@ == old(snapshots)@.push(snapshot),
        outcome is None ==> final(snapshots)@ == old(snapshots)@,
        r == if outcome is Some {
            SocketFate::Keep
        } else {
            SocketFate::Remove
        },
{
    match outcome {
        Some(snapshot) => {
            snapshots.push(snapshot);
            SocketFate::Keep
        },
        None => SocketFate::Remove,
    }
}

/// The snapshots of a whole round.
pub open spec fn round(outcomes: Seq<Option<TerminalSnapshot>>) -> Seq<TerminalSnapshot>
    decreases outcomes.len(),
{
    if outcomes.len() == 0 {
        Seq::empty()
    } else {
        settled(round(outcomes.drop_last()), outcomes.last())
    }
}

/// A round holds the snapshots of the terminals that answered, in the order in
/// which they were asked.
pub proof fn round_keeps_the_answers(outcomes: Seq<Option<TerminalSnapshot>>)
    ensures
        round(outcomes).map_values(|s: TerminalSnapshot| Some(s)) == outcomes.filter(
            |o: Option<TerminalSnapshot>| o is Some,
        ),
    decreases outcomes.len(),
{
    reveal(Seq::filter);
    let wrap = |s: TerminalSnapshot| Some(s);
    if outcomes.len() == 0 {
        assert(round(outcomes).map_values(wrap) =~= Seq::empty());
    } else {
        let front = outcomes.drop_last();
        round_keeps_the_answers(front);
        if let Some(s) = outcomes.last() {
            assert(round(outcomes).map_values(wrap) =~= round(front).map_values(wrap).push(
                Some(s),
            ));
        }
    }
}

/// What the status bar shows beside the number of terminals.
#[derive(Clone, Copy, Debug, PartialEq, Eq, Structural)]
pub enum StatusKind {
    Error,
    Info,
    Nominal,
}

/// A text of the status bar.
pub struct StatusLine {
    pub kind: StatusKind,
    pub text: String,
}

/// What the worker and the interface share.
pub struct SharedState {
    pub terminals: Vec<TerminalSnapshot>,
    pub last_error: Option<String>,
    pub last_info: Option<String>,
}

impl SharedState {
    /// Nothing known yet.
    pub fn new() -> (r: Self)
        ensures
            r.terminals@.len() == 0,
            r.last_error is None,
            r.last_info is None,
    {
        SharedState { terminals: Vec::new(), last_error: None, last_info: None }
    }

    /// Puts the snapshots of a round in place of those before.
    pub fn finish_refresh(&mut self, snapshots: Vec<TerminalSnapshot>)
        ensures
            final(self).terminals == snapshots,
            final(self).last_error == old(self).last_error,
            final(self).last_info == old(self).last_info,
            final(self).status() == old(self).status(),
    {
        self.terminals = snapshots;
    }

    /// Notes what came of sending a widget to the terminal `pid`; the error is
    /// given by its text.
    pub fn note_injection(&mut self, pid: u32, outcome: Result<(), String>)
        ensures
            final(self).terminals == old(self).terminals,
            match outcome {
                Ok(_) => {
                    &&& final(self).last_error is None
                    &&& final(self).last_info matches Some(text) && text@
                        == "Widget injected into terminal PID "@ + decimal(pid as nat)
                    &&& final(self).status().0 == StatusKind::Info
                },
                Err(e) => {
                    &&& final(self).last_info is None
                    &&& final(self).last_error matches Some(text) && text@ == "Inject into PID "@
                        + decimal(pid as nat) + " failed: "@ + e@
                    &&& final(self).status().0 == StatusKind::Error
                },
            },
    {
        match outcome {
            Ok(_) => {
                let mut text = "Widget injected into terminal PID ".to_owned();
                push_decimal(&mut text, pid as u64);
                self.last_error = None;
                self.last_info = Some(text);
            },
            Err(e) => {
                let mut text = "Inject into PID ".to_owned();
                push_decimal(&mut text, pid as u64);
                text.append(" failed: ");
                text.append(e.as_str());
                self.last_info = None;
                self.last_error = Some(text);
            },
        }
    }

    /// Notes that there is no terminal to alert.
    pub fn note_no_terminal(&mut self)
        ensures
            final(self).terminals == old(self).terminals,
            final(self).last_info == old(self).last_info,
            final(self).last_error matches Some(text) && text@
                == "No mitos-terminal detected — launch one first"@,
    {
        self.last_error = Some("No mitos-terminal detected — launch one first".to_owned());
    }

    /// The status text: the last error, else the last message, else that all is
    /// well.
    pub open spec fn status(self) -> (StatusKind, Seq<char>) {
        match self.last_error {
            Some(e) => (StatusKind::Error, e@),
            None => match self.last_info {
                Some(i) => (StatusKind::Info, i@),
                None => (StatusKind::Nominal, "All systems nominal"@),
            },
        }
    }

    /// The status text and what it is.
    pub fn status_line(&self) -> (r: StatusLine)
        ensures
            (r.kind, r.text@) == self.status(),
            self.last_error matches Some(e) ==> r.kind == StatusKind::Error && r.text@ == e@,
            self.last_error is None ==> (self.last_info matches Some(i) ==> r.kind
                == StatusKind::Info && r.text@ == i@),
            self.last_error is None && self.last_info is None ==> r.kind == StatusKind::Nominal
                && r.text@ == "All systems nominal"@,
    {
        match &self.last_error {
            Some(e) => StatusLine { kind: StatusKind::Error, text: e.clone() },
            None => match &self.last_info {
                Some(i) => StatusLine { kind: StatusKind::Info, text: i.clone() },
                None => StatusLine {
                    kind: StatusKind::Nominal,
                    text: "All systems nominal".to_owned(),
                },
            },
        }
    }

    /// The number of terminals, for the status bar.
    pub fn terminal_count_label(&self) -> (r: String)
        ensures
            r@ == "🖥️ "@ + decimal(self.terminals@.len()) + " mitos-terminal instance(s) live"@,
    {
        let mut text = "🖥️ ".to_owned();
        push_decimal(&mut text, self.terminals.len() as u64);
        text.append(" mitos-terminal instance(s) live");
        text
    }
}

/// The colour of a status text; `None` for the plain colour of texts.
pub fn status_color(kind: StatusKind) -> (r: Option<Color>)
    ensures
        r == match kind {
            StatusKind::Error => Some(red()),
            StatusKind::Info => Some(green()),
            StatusKind::Nominal => None,
        },
        kind == StatusKind::Error ==> r == Some(Color { r: 255, g: 85, b: 85 }),
        kind == StatusKind::Info ==> r == Some(Color { r: 85, g: 255, b: 85 }),
{
    match kind {
        StatusKind::Error => Some(Color { r: 255, g: 85, b: 85 }),
        StatusKind::Info => Some(Color { r: 85, g: 255, b: 85 }),
        StatusKind::Nominal => None,
    }
}

/// The status is an error as long as one is noted, else the last message, else
/// nominal.
pub proof fn status_by_messages(state: SharedState)
    ensures
        state.last_error matches Some(e) ==> state.status() == (StatusKind::Error, e@),
        state.last_error is None ==> (state.last_info matches Some(i) ==> state.status() == (
            StatusKind::Info,
            i@,
        )),
        state.last_error is None && state.last_info is None ==> state.status() == (
            StatusKind::Nominal,
            "All systems nominal"@,
        ),
{
}

/// A round goes terminal by terminal: an answer is added at the end, and a query
/// that failed changes nothing.
pub proof fn rounds_go_one_by_one(
    outcomes: Seq<Option<TerminalSnapshot>>,
    snapshot: TerminalSnapshot,
)
    ensures
        round(Seq::empty()).len() == 0,
        round(outcomes.push(Some(snapshot))) == round(outcomes).push(snapshot),
        round(outcomes.push(None)) == round(outcomes),
{
    assert(outcomes.push(Some(snapshot)).drop_last() =~= outcomes);
    assert(outcomes.push(None).drop_last() =~= outcomes);
}

} // verus!
