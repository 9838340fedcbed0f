//! Orchestration core for running a list of shell commands on many remote
//! hosts: who is addressed, when each host's run may start, what a run does
//! command by command, and in which order the results are shown.
//!
//! The transport is not part of this library. Its user opens the sessions
//! and moves the bytes; the state machines here decide what is done next
//! and keep the record.
//!
//! - [`host`]: connection targets and the host specification grammar.
//! - [`scheduler`]: at most so many runs at once, and a record for every host.
//! - [`runner`]: one host's commands in order, stopping at the first failure
//!   and always closing the session.
//! - [`session`]: the command line sent for a command, and how the channel's
//!   messages add up to its result.
//! - [`outcome`]: results, errors and the record of a host.
//! - [`aggregate`]: the final order, by host name and by command.
//! - [`report`]: what the renderer gets.
//! - [`order`]: stable sorting, as mathematics.
//! - [`text`]: splitting, trimming, comparing and writing text.

pub mod aggregate;
pub mod host;
pub mod order;
pub mod outcome;
pub mod report;
pub mod runner;
pub mod scheduler;
pub mod session;
pub mod text;
