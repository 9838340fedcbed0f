//! What a session does with one command, apart from the transport itself:
//! how the command line is rewritten to run under another identity, and how
//! the messages that come back on the channel add up to the command's result.

use crate::host::opt_text;
use crate::text::{trim, trimmed};
use vstd::prelude::*;
use vstd::string::*;
use vstd::utf8::{decode_utf8, valid_utf8};

verus! {

/// Seconds allowed for opening a session, handshake and authentication
/// together.
pub const CONNECT_TIMEOUT_SECS: u64 = 5;

/// Seconds a session may stay silent before it is given up.
pub const INACTIVITY_TIMEOUT_SECS: u64 = 5;

/// The command line sent to the host for `command`: as it is, or handed to
/// `sudo` where an escalation target is set, with the password piped to its
/// prompt where one is given.
pub open spec fn escalated(
    command: Seq<char>,
    sudo: Option<Seq<char>>,
    password: Option<Seq<char>>,
) -> Seq<char> {
    match (sudo, password) {
        (Some(user), Some(secret)) => "echo "@ + secret + " | sudo -u "@ + user + " -S  "@
            + command,
        (Some(user), None) => "sudo -u "@ + user + " "@ + command,
        (None, _) => command,
    }
}

/// The command line sent to the host for `command`.
pub fn escalate(command: &str, sudo: &Option<String>, sudo_password: &Option<String>) -> (line:
    String)
    ensures
        line@ == escalated(command@, opt_text(*sudo), opt_text(*sudo_password)),
{
    match (sudo, sudo_password) {
        (Some(user), Some(secret)) => {
            let mut line = "echo ".to_string();
            line.append(secret.as_str());
            line.append(" | sudo -u ");
            line.append(user.as_str());
            line.append(" -S  ");
            line.append(command);
            line
        },
        (Some(user), None) => {
            let mut line = "sudo -u ".to_string();
            line.append(user.as_str());
            line.append(" ");
            line.append(command);
            line
        },
        (None, _) => command.to_string(),
    }
}

/// What opening a session comes to once the host has answered the
/// authentication request.
pub fn auth_outcome(accepted: bool) -> (outcome: Result<(), String>)
    ensures
        accepted <==> outcome is Ok,
        outcome matches Err(reason) ==> reason@ == "Authentication failed"@,
{
    if accepted {
        Ok(())
    } else {
        Err("Authentication failed".to_string())
    }
}

/// The milliseconds in a span of `secs` whole seconds and `subsec_millis`
/// further milliseconds.
pub fn duration_millis(secs: u64, subsec_millis: u32) -> (millis: u64)
    requires
        secs * 1000 + subsec_millis <= u64::MAX,
    ensures
        millis == secs * 1000 + subsec_millis,
{
    secs * 1000 + subsec_millis as u64
}

/// The text std's UTF-8 check gives as the reason for refusing `bytes`.
pub uninterp spec fn utf8_refusal(bytes: Seq<u8>) -> Seq<char>;

/// `std::str::from_utf8`, with the error as its text. Succeeds exactly on
/// well-formed UTF-8 and then gives the characters the bytes encode; the
/// text of the error depends on the bytes alone.
#[verifier::external_body]
fn utf8_text(data: &[u8]) -> (decoded: Result<&str, String>)
    ensures
        decoded is Ok <==> valid_utf8(data@),
        decoded matches Ok(text) ==> text@ == decode_utf8(data@),
        decoded matches Err(reason) ==> reason@ == utf8_refusal(data@),
{
    match std::str::from_utf8(data) {
        Ok(text) => Ok(text),
        Err(error) => Err(error.to_string()),
    }
}

/// A message that arrives on the channel of a running command.
#[derive(Debug, PartialEq, Eq)]
pub enum ChannelEvent {
    /// A chunk of the command's standard output.
    Data(Vec<u8>),
    /// A chunk of the command's standard error.
    ExtendedData(Vec<u8>),
    /// The command's exit status.
    ExitStatus(u32),
    /// Anything else.
    Other,
}

/// Model of a [`ChannelEvent`].
pub enum ChannelEventView {
    Data(Seq<u8>),
    ExtendedData(Seq<u8>),
    ExitStatus(u32),
    Other,
}

impl View for ChannelEvent {
    type V = ChannelEventView;

    open spec fn view(&self) -> ChannelEventView {
        match *self {
            ChannelEvent::Data(data) => ChannelEventView::Data(data@),
            ChannelEvent::ExtendedData(data) => ChannelEventView::ExtendedData(data@),
            ChannelEvent::ExitStatus(status) => ChannelEventView::ExitStatus(status),
            ChannelEvent::Other => ChannelEventView::Other,
        }
    }
}

/// What has come back from a command so far.
#[derive(Debug, PartialEq, Eq)]
pub struct Captured {
    pub out: String,
    pub err: String,
    pub code: Option<u32>,
}

/// Model of a [`Captured`].
pub struct CapturedView {
    pub out: Seq<char>,
    pub err: Seq<char>,
    pub code: Option<u32>,
}

impl View for Captured {
    type V = CapturedView;

    open spec fn view(&self) -> CapturedView {
        CapturedView { out: self.out@, err: self.err@, code: self.code }
    }
}

/// The text a chunk adds to its stream: its characters without the white
/// space around them.
pub open spec fn chunk_text(data: Seq<u8>) -> Seq<char> {
    trimmed(decode_utf8(data))
}

/// Model of the result of a command: output, error output, exit status and
/// milliseconds taken, or the reason there is none.
pub type CallView = Result<(Seq<char>, Seq<char>, Option<u32>, u64), Seq<char>>;

impl CapturedView {
    /// Nothing has come back yet.
    pub open spec fn empty() -> CapturedView {
        CapturedView { out: Seq::empty(), err: Seq::empty(), code: None }
    }

    /// The capture after `event`: a chunk is added to the end of its stream,
    /// an exit status replaces the one before, anything else is passed over.
    /// A chunk that is not UTF-8 ends the capture with the reason.
    pub open spec fn after(self, event: ChannelEventView) -> Result<CapturedView, Seq<char>> {
        match event {
            ChannelEventView::Data(data) => if valid_utf8(data) {
                Ok(CapturedView { out: self.out + chunk_text(data), ..self })
            } else {
                Err(utf8_refusal(data))
            },
            ChannelEventView::ExtendedData(data) => if valid_utf8(data) {
                Ok(CapturedView { err: self.err + chunk_text(data), ..self })
            } else {
                Err(utf8_refusal(data))
            },
            ChannelEventView::ExitStatus(status) => Ok(CapturedView { code: Some(status), ..self }),
            ChannelEventView::Other => Ok(self),
        }
    }

    /// The capture after all of `events`, in the order they arrived, or the
    /// reason of the first one that ended it.
    pub open spec fn after_all(self, events: Seq<ChannelEventView>) -> Result<
        CapturedView,
        Seq<char>,
    >
        decreases events.len(),
    {
        if events.len() == 0 {
            Ok(self)
        } else {
            match self.after(events[0]) {
                Ok(next) => next.after_all(events.drop_first()),
                Err(reason) => Err(reason),
            }
        }
    }

    /// The command's result once the channel has closed after `millis`
    /// milliseconds: what was captured, unless no exit status ever came.
    pub open spec fn outcome(self, millis: u64) -> CallView {
        if self.code is Some {
            Ok((self.out, self.err, self.code, millis))
        } else {
            Err("No exit code"@)
        }
    }
}

/// The result of a command whose channel carried `events` and closed after
/// `millis` milliseconds.
pub open spec fn call_result(events: Seq<ChannelEventView>, millis: u64) -> CallView {
    match CapturedView::empty().after_all(events) {
        Ok(capture) => capture.outcome(millis),
        Err(reason) => Err(reason),
    }
}

/// Model of the result of a command.
pub open spec fn call_view(result: Result<(String, String, Option<u32>, u64), String>) -> CallView {
    match result {
        Ok((out, err, code, millis)) => Ok((out@, err@, code, millis)),
        Err(reason) => Err(reason@),
    }
}

/// Model of a capture or the reason it ended.
pub open spec fn capture_view(result: Result<Captured, String>) -> Result<CapturedView, Seq<char>> {
    match result {
        Ok(capture) => Ok(capture@),
        Err(reason) => Err(reason@),
    }
}

/// Model of a list of channel messages.
pub open spec fn events_view(events: Seq<ChannelEvent>) -> Seq<ChannelEventView> {
    events.map_values(|event: ChannelEvent| event@)
}

/// The two streams a command writes to.
#[derive(Debug, Clone, Copy, PartialEq, Eq)]
pub enum Stream {
    Output,
    Error,
}

/// The text a chunk adds to its stream, or the reason it cannot be read.
pub fn decode_chunk(data: &[u8]) -> (decoded: Result<&str, String>)
    ensures
        decoded is Ok <==> valid_utf8(data@),
        decoded matches Ok(text) ==> text@ == chunk_text(data@),
        decoded matches Err(reason) ==> reason@ == utf8_refusal(data@),
{
    match utf8_text(data) {
        Ok(text) => Ok(trim(text)),
        Err(reason) => Err(reason),
    }
}

impl Captured {
    /// Nothing has come back yet.
    pub fn new() -> (capture: Captured)
        ensures
            capture@ == CapturedView::empty(),
    {
        Captured { out: String::new(), err: String::new(), code: None }
    }

    /// Adds the text of a chunk to the end of `stream`, or ends the capture
    /// with the reason the chunk could not be read.
    pub fn take_chunk(self, stream: Stream, decoded: Result<&str, String>) -> (next: Result<
        Captured,
        String,
    >)
        ensures
            match decoded {
                Ok(text) => next matches Ok(capture) && capture@ == match stream {
                    Stream::Output => CapturedView { out: self@.out + text@, ..self@ },
                    Stream::Error => CapturedView { err: self@.err + text@, ..self@ },
                },
                Err(reason) => next matches Err(given) && given@ == reason@,
            },
    {
        let Captured { mut out, mut err, code } = self;
        match decoded {
            Ok(text) => {
                match stream {
                    Stream::Output => out.append(text),
                    Stream::Error => err.append(text),
                }
                Ok(Captured { out, err, code })
            },
            Err(reason) => Err(reason),
        }
    }

    /// Takes in the next message from the channel.
    pub fn feed(self, event: &ChannelEvent) -> (next: Result<Captured, String>)
        ensures
            capture_view(next) == self@.after(event@),
    {
        match event {
            ChannelEvent::Data(data) => self.take_chunk(Stream::Output, decode_chunk(data.as_slice())),
            ChannelEvent::ExtendedData(data) => self.take_chunk(
                Stream::Error,
                decode_chunk(data.as_slice()),
            ),
            ChannelEvent::ExitStatus(status) => {
                let Captured { out, err, code } = self;
                Ok(Captured { out, err, code: Some(*status) })
            },
            ChannelEvent::Other => Ok(self),
        }
    }

    /// The command's result once the channel has closed, `millis`
    /// milliseconds after the command was sent.
    pub fn finish(self, millis: u64) -> (result: Result<(String, String, Option<u32>, u64), String>)
        ensures
            call_view(result) == self@.outcome(millis),
    {
        let Captured { out, err, code } = self;
        match code {
            Some(_) => Ok((out, err, code, millis)),
            None => Err("No exit code".to_string()),
        }
    }
}

/// The result of a command from everything its channel carried until it
/// closed, `millis` milliseconds after the command was sent.
pub fn capture_call(events: &Vec<ChannelEvent>, millis: u64) -> (result: Result<
    (String, String, Option<u32>, u64),
    String,
>)
    ensures
        call_view(result) == call_result(events_view(events@), millis),
{
    let ghost all = events_view(events@);
    let mut capture = Captured::new();
    let mut i: usize = 0;
    proof {
        assert(all.skip(0) =~= all);
    }
    while i < events.len()
        invariant
            i <= events.len(),
            all == events_view(events@),
            CapturedView::empty().after_all(all) == capture@.after_all(all.skip(i as int)),
        decreases events.len() - i,
    {
        proof {
            assert(all.skip(i as int)[0] == events[i as int]@);
            assert(all.skip(i as int).drop_first() =~= all.skip(i + 1));
        }
        match capture.feed(&events[i]) {
            Ok(next) => {
                capture = next;
            },
            Err(reason) => {
                return Err(reason);
            },
        }
        i = i + 1;
    }
    capture.finish(millis)
}

} // verus!
