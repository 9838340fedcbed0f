//! What a run produces: per-command results, the errors that can take their
//! place, and the record kept for each host.

use crate::host::{RemoteHost, RemoteHostView};
use vstd::prelude::*;
use vstd::string::*;

verus! {

/// The ways a host's run can go wrong.
#[derive(Debug, PartialEq, Eq)]
pub enum RunError {
    /// The orchestration itself failed; not tied to any one command.
    GeneralError(String),
    /// The connection could not be established or authenticated.
    SshConnectionError(String),
    /// The command at the given position failed.
    SshRunError(String, usize),
    /// Disconnecting failed after the run.
    SshCloseError(String),
}

/// Model of a [`RunError`].
pub enum RunErrorView {
    GeneralError(Seq<char>),
    SshConnectionError(Seq<char>),
    SshRunError(Seq<char>, nat),
    SshCloseError(Seq<char>),
}

impl View for RunError {
    type V = RunErrorView;

    open spec fn view(&self) -> RunErrorView {
        match *self {
            RunError::GeneralError(detail) => RunErrorView::GeneralError(detail@),
            RunError::SshConnectionError(detail) => RunErrorView::SshConnectionError(detail@),
            RunError::SshRunError(detail, index) => RunErrorView::SshRunError(detail@, index as nat),
            RunError::SshCloseError(detail) => RunErrorView::SshCloseError(detail@),
        }
    }
}

impl RunErrorView {
    /// The text shown to the user for this error.
    pub open spec fn message(self) -> Seq<char> {
        match self {
            RunErrorView::GeneralError(detail) => "An error occurred: "@ + detail,
            RunErrorView::SshConnectionError(detail) => "SSH Connection error: "@ + detail,
            RunErrorView::SshRunError(detail, _) => "SSH Run error: "@ + detail,
            RunErrorView::SshCloseError(detail) => "SSH error occurred: "@ + detail,
        }
    }
}

impl Clone for RunError {
    fn clone(&self) -> (copy: Self)
        ensures
            copy@ == self@,
    {
        match self {
            RunError::GeneralError(detail) => RunError::GeneralError(detail.clone()),
            RunError::SshConnectionError(detail) => RunError::SshConnectionError(detail.clone()),
            RunError::SshRunError(detail, index) => RunError::SshRunError(detail.clone(), *index),
            RunError::SshCloseError(detail) => RunError::SshCloseError(detail.clone()),
        }
    }
}

impl RunError {
    /// The text shown to the user for this error.
    pub fn to_string(&self) -> (text: String)
        ensures
            text@ == self@.message(),
    {
        let (mut text, detail) = match self {
            RunError::GeneralError(detail) => ("An error occurred: ".to_string(), detail),
            RunError::SshConnectionError(detail) => ("SSH Connection error: ".to_string(), detail),
            RunError::SshRunError(detail, _) => ("SSH Run error: ".to_string(), detail),
            RunError::SshCloseError(detail) => ("SSH error occurred: ".to_string(), detail),
        };
        text.append(detail.as_str());
        text
    }
}

pub type RunResult<T> = Result<T, RunError>;

/// What one successfully executed command produced.
#[derive(Debug, PartialEq, Eq)]
pub struct Response {
    /// Position of the command in the list given for the host.
    pub index: usize,
    pub out: String,
    pub err: String,
    pub code: Option<u32>,
    /// Milliseconds the command took.
    pub duration: u64,
}

/// Model of a [`Response`].
pub struct ResponseView {
    pub index: nat,
    pub out: Seq<char>,
    pub err: Seq<char>,
    pub code: Option<u32>,
    pub duration: u64,
}

impl View for Response {
    type V = ResponseView;

    open spec fn view(&self) -> ResponseView {
        ResponseView {
            index: self.index as nat,
            out: self.out@,
            err: self.err@,
            code: self.code,
            duration: self.duration,
        }
    }
}

impl Clone for Response {
    fn clone(&self) -> (copy: Self)
        ensures
            copy@ == self@,
    {
        Response {
            index: self.index,
            out: self.out.clone(),
            err: self.err.clone(),
            code: self.code,
            duration: self.duration,
        }
    }
}

/// Model of one entry of a host's record: a result or the error in its place.
pub type OutcomeView = Result<ResponseView, RunErrorView>;

/// Model of one entry of a host's record.
pub open spec fn outcome_view(outcome: RunResult<Response>) -> OutcomeView {
    match outcome {
        Ok(response) => Ok(response@),
        Err(error) => Err(error@),
    }
}

/// Model of a host's list of entries.
pub open spec fn outcomes_view(outcomes: Seq<RunResult<Response>>) -> Seq<OutcomeView> {
    outcomes.map_values(|outcome: RunResult<Response>| outcome_view(outcome))
}

/// The command position an entry belongs to, if it belongs to one: results
/// and command failures carry a position, other errors do not.
pub open spec fn position_of(outcome: OutcomeView) -> Option<nat> {
    match outcome {
        Ok(response) => Some(response.index),
        Err(RunErrorView::SshRunError(_, index)) => Some(index),
        Err(_) => None,
    }
}

/// The positions of the entries rise strictly: of two entries that belong to
/// commands, the earlier entry belongs to the earlier command.
pub open spec fn positions_rise(entries: Seq<OutcomeView>) -> bool {
    forall|i: int, j: int|
        0 <= i < j < entries.len() ==> match (
            position_of(#[trigger] entries[i]),
            position_of(#[trigger] entries[j]),
        ) {
            (Some(p), Some(q)) => p < q,
            _ => true,
        }
}

/// The command position an entry belongs to, if it belongs to one.
pub fn outcome_position(outcome: &RunResult<Response>) -> (position: Option<usize>)
    ensures
        position is Some <==> position_of(outcome_view(*outcome)) is Some,
        position matches Some(p) ==> position_of(outcome_view(*outcome)) == Some(p as nat),
{
    match outcome {
        Ok(response) => Some(response.index),
        Err(RunError::SshRunError(_, index)) => Some(*index),
        Err(_) => None,
    }
}

/// Copies one entry of a host's record.
pub fn clone_outcome(outcome: &RunResult<Response>) -> (copy: RunResult<Response>)
    ensures
        outcome_view(copy) == outcome_view(*outcome),
{
    match outcome {
        Ok(response) => Ok(response.clone()),
        Err(error) => Err(error.clone()),
    }
}

/// Everything recorded for one host.
#[derive(Debug, PartialEq, Eq)]
pub struct Responses {
    pub remote_host: RemoteHost,
    pub responses: Vec<RunResult<Response>>,
}

/// Model of a [`Responses`].
pub struct ResponsesView {
    pub remote_host: RemoteHostView,
    pub responses: Seq<OutcomeView>,
}

impl View for Responses {
    type V = ResponsesView;

    open spec fn view(&self) -> ResponsesView {
        ResponsesView {
            remote_host: self.remote_host@,
            responses: outcomes_view(self.responses@),
        }
    }
}

/// Model of a list of host records.
pub open spec fn records_view(records: Seq<Responses>) -> Seq<ResponsesView> {
    records.map_values(|record: Responses| record@)
}

} // verus!
