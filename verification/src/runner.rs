//! The command sequence of one host, as a state machine.
//!
//! A [`HostRunner`] decides; its driver acts. The driver asks the runner what
//! to do next ([`HostRunner::pending`]), does it against the host's session,
//! and reports how it went ([`HostRunner::step`]). The runner stops at the
//! first command that fails, always asks for the session to be closed once a
//! connection was made, and records every result under the position of its
//! command.

use crate::host::{opt_text, RemoteHost, RemoteHostView};
use crate::outcome::{
    outcomes_view, position_of, positions_rise, OutcomeView, Response, ResponseView, RunError,
    RunErrorView, RunResult,
};
use vstd::prelude::*;
use vstd::string::*;

verus! {

/// Where a host's run stands.
#[derive(Debug, Clone, Copy, PartialEq, Eq)]
pub enum Phase {
    /// No connection has been made yet.
    Connecting,
    /// Connected; the next command is due.
    Running,
    /// The commands are over; the session is to be closed.
    Closing,
    /// Nothing is left to do.
    Finished,
}

/// What the driver reports back to the runner.
#[derive(Debug, PartialEq, Eq)]
pub enum RunnerEvent {
    /// The session was opened and authenticated.
    Connected,
    /// The session could not be opened.
    ConnectFailed(String),
    /// The command that was due ran to its end.
    CommandDone { out: String, err: String, code: Option<u32>, duration: u64 },
    /// The command that was due could not be run to its end.
    CommandFailed(String),
    /// The session was closed.
    Closed,
    /// Closing the session failed.
    CloseFailed(String),
}

/// Model of a [`RunnerEvent`].
pub enum RunnerEventView {
    Connected,
    ConnectFailed(Seq<char>),
    CommandDone { out: Seq<char>, err: Seq<char>, code: Option<u32>, duration: u64 },
    CommandFailed(Seq<char>),
    Closed,
    CloseFailed(Seq<char>),
}

impl View for RunnerEvent {
    type V = RunnerEventView;

    open spec fn view(&self) -> RunnerEventView {
        match *self {
            RunnerEvent::Connected => RunnerEventView::Connected,
            RunnerEvent::ConnectFailed(detail) => RunnerEventView::ConnectFailed(detail@),
            RunnerEvent::CommandDone { out, err, code, duration } => RunnerEventView::CommandDone {
                out: out@,
                err: err@,
                code,
                duration,
            },
            RunnerEvent::CommandFailed(detail) => RunnerEventView::CommandFailed(detail@),
            RunnerEvent::Closed => RunnerEventView::Closed,
            RunnerEvent::CloseFailed(detail) => RunnerEventView::CloseFailed(detail@),
        }
    }
}

impl RunnerEvent {
    /// The report of an attempt to open the session.
    pub fn connection(attempt: Result<(), String>) -> (event: RunnerEvent)
        ensures
            event@ == match attempt {
                Ok(_) => RunnerEventView::Connected,
                Err(reason) => RunnerEventView::ConnectFailed(reason@),
            },
    {
        match attempt {
            Ok(_) => RunnerEvent::Connected,
            Err(reason) => RunnerEvent::ConnectFailed(reason),
        }
    }

    /// The report of a command: its output, error output, exit status and
    /// milliseconds taken, or the reason it has none.
    pub fn command(result: Result<(String, String, Option<u32>, u64), String>) -> (event:
        RunnerEvent)
        ensures
            event@ == match result {
                Ok((out, err, code, duration)) => RunnerEventView::CommandDone {
                    out: out@,
                    err: err@,
                    code,
                    duration,
                },
                Err(reason) => RunnerEventView::CommandFailed(reason@),
            },
    {
        match result {
            Ok((out, err, code, duration)) => RunnerEvent::CommandDone { out, err, code, duration },
            Err(reason) => RunnerEvent::CommandFailed(reason),
        }
    }

    /// The report of an attempt to close the session.
    pub fn closing(attempt: Result<(), String>) -> (event: RunnerEvent)
        ensures
            event@ == match attempt {
                Ok(_) => RunnerEventView::Closed,
                Err(reason) => RunnerEventView::CloseFailed(reason@),
            },
    {
        match attempt {
            Ok(_) => RunnerEvent::Closed,
            Err(reason) => RunnerEvent::CloseFailed(reason),
        }
    }
}

/// What the runner asks its driver to do.
#[derive(Debug, PartialEq, Eq)]
pub enum RunnerAction {
    /// Open and authenticate a session to the host.
    Connect,
    /// Run the command at `index`.
    Execute { index: usize, command: String },
    /// Close the session.
    Close,
    /// Nothing more: collect the record.
    Finish,
}

/// Model of a [`RunnerAction`].
pub enum RunnerActionView {
    Connect,
    Execute { index: nat, command: Seq<char> },
    Close,
    Finish,
}

impl View for RunnerAction {
    type V = RunnerActionView;

    open spec fn view(&self) -> RunnerActionView {
        match *self {
            RunnerAction::Connect => RunnerActionView::Connect,
            RunnerAction::Execute { index, command } => RunnerActionView::Execute {
                index: index as nat,
                command: command@,
            },
            RunnerAction::Close => RunnerActionView::Close,
            RunnerAction::Finish => RunnerActionView::Finish,
        }
    }
}

/// The entry is the result of the command at `position`.
pub open spec fn is_result_of(entry: OutcomeView, position: int) -> bool {
    entry matches Ok(response) && response.index == position
}

/// The first `count` entries are results, each at its own position.
pub open spec fn results_in_place(entries: Seq<OutcomeView>, count: int) -> bool {
    forall|i: int| 0 <= i < count ==> is_result_of(#[trigger] entries[i], i)
}

/// The entries of a run over `total` commands once no further command will
/// be tried: either every command has its result, or the results stop at the
/// first command that failed, whose error comes last.
pub open spec fn stopped_run(entries: Seq<OutcomeView>, total: int) -> bool {
    ||| entries.len() == total && results_in_place(entries, total)
    ||| {
        &&& 1 <= entries.len() <= total
        &&& results_in_place(entries, entries.len() - 1)
        &&& entries.last() matches Err(RunErrorView::SshRunError(_, index))
        &&& index == entries.len() - 1
    }
}

/// The entries of a run after the session was closed: those of the stopped
/// run, followed by the close error if closing failed.
pub open spec fn closed_run(entries: Seq<OutcomeView>, total: int) -> bool {
    ||| stopped_run(entries, total)
    ||| {
        &&& entries.len() >= 1
        &&& entries.last() matches Err(RunErrorView::SshCloseError(_))
        &&& stopped_run(entries.drop_last(), total)
    }
}

/// Model of a [`HostRunner`].
pub struct RunnerView {
    pub remote_host: RemoteHostView,
    pub commands: Seq<Seq<char>>,
    pub phase: Phase,
    /// Why no connection could be made, if none could.
    pub refused: Option<Seq<char>>,
    /// What has been recorded so far.
    pub entries: Seq<OutcomeView>,
}

impl RunnerView {
    /// The state a run starts in.
    pub open spec fn start(remote_host: RemoteHostView, commands: Seq<Seq<char>>) -> RunnerView {
        RunnerView {
            remote_host,
            commands,
            phase: Phase::Connecting,
            refused: None,
            entries: Seq::empty(),
        }
    }

    /// What holds of every state a run can reach.
    pub open spec fn inv(self) -> bool {
        match self.phase {
            Phase::Connecting => self.refused is None && self.entries.len() == 0,
            Phase::Running => {
                &&& self.refused is None
                &&& self.entries.len() < self.commands.len()
                &&& results_in_place(self.entries, self.entries.len() as int)
            },
            Phase::Closing => self.refused is None && stopped_run(
                self.entries,
                self.commands.len() as int,
            ),
            Phase::Finished => if self.refused is Some {
                self.entries.len() == 0
            } else {
                closed_run(self.entries, self.commands.len() as int)
            },
        }
    }

    /// What the driver is to do in this state.
    pub open spec fn pending(self) -> RunnerActionView {
        match self.phase {
            Phase::Connecting => RunnerActionView::Connect,
            Phase::Running => RunnerActionView::Execute {
                index: self.entries.len(),
                command: self.commands[self.entries.len() as int],
            },
            Phase::Closing => RunnerActionView::Close,
            Phase::Finished => RunnerActionView::Finish,
        }
    }

    /// The state that follows when the driver reports `event`. A report that
    /// does not answer the pending action changes nothing.
    pub open spec fn after(self, event: RunnerEventView) -> RunnerView {
        match (self.phase, event) {
            (Phase::Connecting, RunnerEventView::Connected) => RunnerView {
                phase: if self.commands.len() > 0 {
                    Phase::Running
                } else {
                    Phase::Closing
                },
                ..self
            },
            (Phase::Connecting, RunnerEventView::ConnectFailed(detail)) => RunnerView {
                phase: Phase::Finished,
                refused: Some(detail),
                ..self
            },
            (Phase::Running, RunnerEventView::CommandDone { out, err, code, duration }) => RunnerView {
                phase: if self.entries.len() + 1 < self.commands.len() {
                    Phase::Running
                } else {
                    Phase::Closing
                },
                entries: self.entries.push(
                    Ok(
                        ResponseView {
                            index: self.entries.len(),
                            out,
                            err,
                            code,
                            duration,
                        },
                    ),
                ),
                ..self
            },
            (Phase::Running, RunnerEventView::CommandFailed(detail)) => RunnerView {
                phase: Phase::Closing,
                entries: self.entries.push(
                    Err(RunErrorView::SshRunError(detail, self.entries.len())),
                ),
                ..self
            },
            (Phase::Closing, RunnerEventView::Closed) => RunnerView {
                phase: Phase::Finished,
                ..self
            },
            (Phase::Closing, RunnerEventView::CloseFailed(detail)) => RunnerView {
                phase: Phase::Finished,
                entries: self.entries.push(Err(RunErrorView::SshCloseError(detail))),
                ..self
            },
            _ => self,
        }
    }

    /// What the run hands over for its host: the connection error if no
    /// connection could be made, the recorded entries otherwise.
    pub open spec fn result(self) -> Result<Seq<OutcomeView>, RunErrorView> {
        match self.refused {
            Some(detail) => Err(RunErrorView::SshConnectionError(detail)),
            None => Ok(self.entries),
        }
    }
}

/// Every report leads from a reachable state to a reachable state.
pub proof fn lemma_after_keeps_inv(state: RunnerView, event: RunnerEventView)
    requires
        state.inv(),
    ensures
        state.after(event).inv(),
{
    let next = state.after(event);
    let total = state.commands.len() as int;
    match (state.phase, event) {
        (Phase::Running, RunnerEventView::CommandDone { .. }) => {
            assert(results_in_place(next.entries, next.entries.len() as int));
        },
        (Phase::Running, RunnerEventView::CommandFailed(detail)) => {
            assert(results_in_place(next.entries, next.entries.len() - 1));
            assert(stopped_run(next.entries, total));
        },
        (Phase::Closing, RunnerEventView::CloseFailed(detail)) => {
            assert(next.entries.drop_last() =~= state.entries);
            assert(closed_run(next.entries, total));
        },
        _ => {},
    }
}

/// How far a run has come.
pub open spec fn phase_rank(phase: Phase) -> nat {
    match phase {
        Phase::Connecting => 0,
        Phase::Running => 1,
        Phase::Closing => 2,
        Phase::Finished => 3,
    }
}

/// A run only moves forward and only adds to what it has recorded; once
/// finished it stays as it is. The session is closed exactly when one was
/// opened: closing is reached from nowhere but a connection that was made,
/// and it is left only by the report of the close, after which the run is
/// finished.
pub proof fn lemma_run_moves_forward(state: RunnerView, event: RunnerEventView)
    ensures
        phase_rank(state.after(event).phase) >= phase_rank(state.phase),
        state.after(event).remote_host == state.remote_host,
        state.after(event).commands == state.commands,
        state.entries.is_prefix_of(state.after(event).entries),
        state.phase == Phase::Finished ==> state.after(event) == state,
        state.phase == Phase::Connecting && state.after(event).phase != Phase::Connecting ==> (
        event is Connected <==> state.after(event).phase != Phase::Finished),
        state.phase == Phase::Closing ==> if event is Closed || event is CloseFailed {
            state.after(event).phase == Phase::Finished
        } else {
            state.after(event) == state
        },
{
}

/// Stop on first error: when the entry at `at` is the failure of a command,
/// it stands at that command's position, every entry before it is the result
/// of the command at its own position, and no later command has an entry:
/// at most a close error follows.
pub proof fn lemma_stop_on_first_error(state: RunnerView, at: int)
    requires
        state.inv(),
        0 <= at < state.entries.len(),
        state.entries[at] matches Err(RunErrorView::SshRunError(_, _)),
    ensures
        position_of(state.entries[at]) == Some(at as nat),
        at < state.commands.len(),
        results_in_place(state.entries, at),
        state.entries.len() <= at + 2,
        forall|later: int|
            at < later < state.entries.len() ==> position_of(#[trigger] state.entries[later])
                is None,
{
    let entries = state.entries;
    let total = state.commands.len() as int;
    if state.phase == Phase::Running {
        assert(is_result_of(entries[at], at));
    } else {
        let run = if stopped_run(entries, total) {
            entries
        } else {
            entries.drop_last()
        };
        assert(stopped_run(run, total));
        if at < run.len() - 1 || (at < run.len() && run.len() == total && results_in_place(
            run,
            total,
        )) {
            assert(is_result_of(run[at], at));
        }
        assert forall|i: int| 0 <= i < at implies is_result_of(#[trigger] entries[i], i) by {
            assert(is_result_of(run[i], i));
        }
    }
}

/// The entries of a reachable state stand in the order of their commands:
/// their positions rise strictly.
pub proof fn lemma_run_entries_rise(state: RunnerView)
    requires
        state.inv(),
    ensures
        positions_rise(state.entries),
{
    let entries = state.entries;
    let total = state.commands.len() as int;
    assert forall|i: int, j: int| 0 <= i < j < entries.len() implies match (
        position_of(#[trigger] entries[i]),
        position_of(#[trigger] entries[j]),
    ) {
        (Some(p), Some(q)) => p < q,
        _ => true,
    } by {
        if state.phase == Phase::Running {
            assert(is_result_of(entries[i], i) && is_result_of(entries[j], j));
        } else if state.phase != Phase::Connecting && state.refused is None {
            let run = if stopped_run(entries, total) {
                entries
            } else {
                entries.drop_last()
            };
            assert(stopped_run(run, total));
            if j < run.len() {
                assert(run[i] == entries[i] && run[j] == entries[j]);
                assert(is_result_of(run[i], i));
                if j < run.len() - 1 || results_in_place(run, total) {
                    assert(is_result_of(run[j], j));
                }
            }
        }
    }
}

/// The entries of a reachable state never hold more than one entry per
/// command plus one for a failed close.
pub proof fn lemma_entries_bounded(state: RunnerView)
    requires
        state.inv(),
    ensures
        state.entries.len() <= state.commands.len() + 1,
        state.phase != Phase::Finished ==> state.entries.len() <= state.commands.len(),
{
}

/// Model of what a run hands over for its host.
pub open spec fn handover_view(handed: RunResult<Vec<RunResult<Response>>>) -> Result<
    Seq<OutcomeView>,
    RunErrorView,
> {
    match handed {
        Ok(responses) => Ok(outcomes_view(responses@)),
        Err(error) => Err(error@),
    }
}

/// The run of one host's commands.
pub struct HostRunner {
    remote_host: RemoteHost,
    commands: Vec<String>,
    phase: Phase,
    refused: Option<String>,
    responses: Vec<RunResult<Response>>,
}

impl View for HostRunner {
    type V = RunnerView;

    closed spec fn view(&self) -> RunnerView {
        RunnerView {
            remote_host: self.remote_host@,
            commands: self.commands.deep_view(),
            phase: self.phase,
            refused: opt_text(self.refused),
            entries: outcomes_view(self.responses@),
        }
    }
}

impl HostRunner {
    #[verifier::type_invariant]
    spec fn reachable(&self) -> bool {
        self@.inv()
    }

    /// A run of `commands` on `remote_host` that has not started yet.
    pub fn new(remote_host: RemoteHost, commands: Vec<String>) -> (runner: HostRunner)
        ensures
            runner@ == RunnerView::start(remote_host@, commands.deep_view()),
            runner@.inv(),
    {
        let responses: Vec<RunResult<Response>> = Vec::new();
        assert(outcomes_view(responses@) =~= Seq::empty());
        HostRunner { remote_host, commands, phase: Phase::Connecting, refused: None, responses }
    }

    /// Where the run stands.
    pub fn phase(&self) -> (phase: Phase)
        ensures
            phase == self@.phase,
    {
        self.phase
    }

    /// The host this run is for.
    pub fn remote_host(&self) -> (remote_host: &RemoteHost)
        ensures
            remote_host@ == self@.remote_host,
    {
        &self.remote_host
    }

    /// What the driver is to do now.
    pub fn pending(&self) -> (action: RunnerAction)
        ensures
            action@ == self@.pending(),
            self@.inv(),
    {
        proof {
            use_type_invariant(self);
        }
        match self.phase {
            Phase::Connecting => RunnerAction::Connect,
            Phase::Running => {
                let index = self.responses.len();
                RunnerAction::Execute { index, command: self.commands[index].clone() }
            },
            Phase::Closing => RunnerAction::Close,
            Phase::Finished => RunnerAction::Finish,
        }
    }

    /// Takes the driver's report of how the pending action went and moves
    /// the run on. A report that does not answer the pending action is
    /// ignored.
    pub fn step(self, event: RunnerEvent) -> (next: HostRunner)
        ensures
            next@ == self@.after(event@),
            next@.inv(),
    {
        proof {
            use_type_invariant(&self);
            lemma_after_keeps_inv(self@, event@);
        }
        let ghost before = self@;
        let HostRunner { remote_host, commands, phase, refused, mut responses } = self;
        let ghost recorded = outcomes_view(responses@);
        let (phase, refused) = match (phase, event) {
            (Phase::Connecting, RunnerEvent::Connected) => {
                if commands.len() > 0 {
                    (Phase::Running, refused)
                } else {
                    (Phase::Closing, refused)
                }
            },
            (Phase::Connecting, RunnerEvent::ConnectFailed(detail)) => (
                Phase::Finished,
                Some(detail),
            ),
            (Phase::Running, RunnerEvent::CommandDone { out, err, code, duration }) => {
                let index = responses.len();
                responses.push(Ok(Response { index, out, err, code, duration }));
                if responses.len() < commands.len() {
                    (Phase::Running, refused)
                } else {
                    (Phase::Closing, refused)
                }
            },
            (Phase::Running, RunnerEvent::CommandFailed(detail)) => {
                let index = responses.len();
                responses.push(Err(RunError::SshRunError(detail, index)));
                (Phase::Closing, refused)
            },
            (Phase::Closing, RunnerEvent::Closed) => (Phase::Finished, refused),
            (Phase::Closing, RunnerEvent::CloseFailed(detail)) => {
                responses.push(Err(RunError::SshCloseError(detail)));
                (Phase::Finished, refused)
            },
            (phase, _) => (phase, refused),
        };
        proof {
            let expected = before.after(event@);
            let reached = RunnerView {
                remote_host: remote_host@,
                commands: commands.deep_view(),
                phase,
                refused: opt_text(refused),
                entries: outcomes_view(responses@),
            };
            assert(reached.entries =~= expected.entries);
            assert(reached == expected);
        }
        HostRunner { remote_host, commands, phase, refused, responses }
    }

    /// Ends the run and hands over what it recorded: the connection error if
    /// no connection could be made, the entries otherwise.
    pub fn finish(self) -> (handed: (RemoteHost, RunResult<Vec<RunResult<Response>>>))
        ensures
            handed.0@ == self@.remote_host,
            handover_view(handed.1) == self@.result(),
            self@.inv(),
    {
        proof {
            use_type_invariant(&self);
        }
        let HostRunner { remote_host, commands, phase, refused, responses } = self;
        match refused {
            Some(detail) => (remote_host, Err(RunError::SshConnectionError(detail))),
            None => (remote_host, Ok(responses)),
        }
    }
}

} // verus!
