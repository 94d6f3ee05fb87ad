//! Opening a console: a terminal is made, and its descriptor is sent
//! through a socket to whoever asked for it. The host's calls are made by
//! the caller, one for each step; here is which step follows which.
use vstd::prelude::*;
use crate::linux_def::Error;

verus! {

/// What is to be done next to open a console.
#[derive(Debug, Copy, Clone, PartialEq, Eq)]
pub enum ConsoleStep {
    /// Make the terminal; the outcome is its descriptor.
    OpenMaster,
    /// Connect to the socket; the outcome is the connection's descriptor.
    Connect { master: i32 },
    /// Send the terminal's descriptor through the connection.
    SendFd { master: i32, client: i32 },
    /// Nothing: the console is open with the terminal's descriptor, or
    /// a step has failed.
    Done(Result<i32, Error>),
}

/// The step that follows `step` when that has come to `outcome`: a failure
/// ends the work with its error; the terminal is made first, then the
/// socket is connected, then the descriptor is sent, and then the work
/// ends with the terminal's descriptor.
pub open spec fn next_step(step: ConsoleStep, outcome: Result<i32, Error>) -> ConsoleStep {
    match step {
        ConsoleStep::Done(r) => ConsoleStep::Done(r),
        _ => match outcome {
            Err(e) => ConsoleStep::Done(Err(e)),
            Ok(fd) => match step {
                ConsoleStep::OpenMaster => ConsoleStep::Connect { master: fd },
                ConsoleStep::Connect { master } => ConsoleStep::SendFd { master, client: fd },
                ConsoleStep::SendFd { master, client } => ConsoleStep::Done(Ok(master)),
                ConsoleStep::Done(r) => ConsoleStep::Done(r),
            },
        },
    }
}

/// The outcome of opening a console whose three steps came to `master`,
/// `client` and `sent`: the first failure among them, in that order, or
/// the terminal's descriptor.
pub open spec fn console_result(
    master: Result<i32, Error>,
    client: Result<i32, Error>,
    sent: Result<i32, Error>,
) -> Result<i32, Error> {
    match master {
        Err(e) => Err(e),
        Ok(m) => match client {
            Err(e) => Err(e),
            Ok(_) => match sent {
                Err(e) => Err(e),
                Ok(_) => Ok(m),
            },
        },
    }
}

/// The step that follows `step` when that has come to `outcome`.
pub fn NewWithSocket(step: ConsoleStep, outcome: Result<i32, Error>) -> (r: ConsoleStep)
    ensures
        r == next_step(step, outcome),
{
    match step {
        ConsoleStep::Done(r) => ConsoleStep::Done(r),
        ConsoleStep::OpenMaster => match outcome {
            Err(e) => ConsoleStep::Done(Err(e)),
            Ok(fd) => ConsoleStep::Connect { master: fd },
        },
        ConsoleStep::Connect { master } => match outcome {
            Err(e) => ConsoleStep::Done(Err(e)),
            Ok(fd) => ConsoleStep::SendFd { master, client: fd },
        },
        ConsoleStep::SendFd { master, client } => match outcome {
            Err(e) => ConsoleStep::Done(Err(e)),
            Ok(_) => ConsoleStep::Done(Ok(master)),
        },
    }
}

/// Opening a console takes at most three steps, and ends with the first
/// failure among them or with the terminal's descriptor.
pub proof fn law_console_steps(
    master: Result<i32, Error>,
    client: Result<i32, Error>,
    sent: Result<i32, Error>,
)
    ensures
        next_step(next_step(next_step(ConsoleStep::OpenMaster, master), client), sent)
            == ConsoleStep::Done(console_result(master, client, sent)),
{
}

} // verus!
