//! The client: which command it sends, and what it does when nobody answers.

use vstd::prelude::*;

use crate::protocol::{Command, ErrorKind};
use crate::text::str_eq;

verus! {

/// How long a daemon that was just started may take to answer, in milliseconds.
pub const DAEMON_START_TIMEOUT: u64 = 3000;

/// How long to wait between two tries, in milliseconds.
pub const RETRY_INTERVAL: u64 = 50;

/// The command that the first argument names; without one it is `toggle`.
pub open spec fn command_named(arg: Option<Seq<char>>) -> Option<Command> {
    match arg {
        None => Some(Command::Toggle),
        Some(name) => if name == "toggle"@ {
            Some(Command::Toggle)
        } else if name == "show"@ {
            Some(Command::Show)
        } else if name == "hide"@ {
            Some(Command::Hide)
        } else if name == "quit"@ {
            Some(Command::Quit)
        } else {
            None
        },
    }
}

/// The command that the first argument names.
pub fn parse_arg(arg: Option<&str>) -> (r: Option<Command>)
    ensures
        r == command_named(
            match arg {
                Some(s) => Some(s@),
                None => None,
            },
        ),
{
    let name = match arg {
        Some(s) => s,
        None => return Some(Command::Toggle),
    };
    if str_eq(name, "toggle") {
        Some(Command::Toggle)
    } else if str_eq(name, "show") {
        Some(Command::Show)
    } else if str_eq(name, "hide") {
        Some(Command::Hide)
    } else if str_eq(name, "quit") {
        Some(Command::Quit)
    } else {
        None
    }
}

/// Whether an error of `connect` means that no daemon is there: no socket file, or one that
/// nobody listens on. Any other error means that someone is.
pub fn is_dead_socket(e: ErrorKind) -> (r: bool)
    ensures
        r == (e == ErrorKind::NotFound || e == ErrorKind::ConnectionRefused),
{
    e == ErrorKind::NotFound || e == ErrorKind::ConnectionRefused
}

/// What to do when the first `connect` failed.
#[derive(Clone, Copy, Debug, PartialEq, Eq, Structural)]
pub enum Recovery {
    /// A daemon is there, and starting another would make two.
    GiveUp,
    /// No daemon is there, and the command has nothing to do without one.
    Fail,
    /// No daemon is there: start one and wait for its socket.
    StartDaemon,
}

/// What to do when the first `connect` failed with `e`.
pub fn recover(cmd: Command, e: ErrorKind) -> (r: Recovery)
    ensures
        r == Recovery::GiveUp <==> !(e == ErrorKind::NotFound || e == ErrorKind::ConnectionRefused),
        r == Recovery::StartDaemon <==> {
            &&& e == ErrorKind::NotFound || e == ErrorKind::ConnectionRefused
            &&& cmd == Command::Toggle || cmd == Command::Show
        },
{
    if !is_dead_socket(e) {
        return Recovery::GiveUp;
    }
    match cmd {
        Command::Hide | Command::Quit => Recovery::Fail,
        Command::Toggle | Command::Show => Recovery::StartDaemon,
    }
}

/// The next step while waiting for a daemon that was just started.
#[derive(Clone, Copy, Debug, PartialEq, Eq, Structural)]
pub enum Wait {
    /// The daemon answers.
    Connected,
    /// Its time is up.
    TimedOut,
    /// Try again after this many milliseconds.
    RetryAfter(u64),
}

/// The next step after a try that `connected` or not, `waited` milliseconds after the start.
/// The first connection counts, also one past the time limit.
pub fn wait_step(connected: bool, waited: u64) -> (r: Wait)
    ensures
        r == (if connected {
            Wait::Connected
        } else if waited >= DAEMON_START_TIMEOUT {
            Wait::TimedOut
        } else {
            Wait::RetryAfter(RETRY_INTERVAL)
        }),
{
    if connected {
        Wait::Connected
    } else if waited >= DAEMON_START_TIMEOUT {
        Wait::TimedOut
    } else {
        Wait::RetryAfter(RETRY_INTERVAL)
    }
}

/// The name that is spelled out for a command.
pub open spec fn name_of(c: Command) -> Seq<char> {
    match c {
        Command::Toggle => "toggle"@,
        Command::Show => "show"@,
        Command::Hide => "hide"@,
        Command::Quit => "quit"@,
    }
}

/// An argument names a command if and only if it is the command's name, letter for letter;
/// without an argument the command is `Toggle`.
pub proof fn law_arguments(name: Seq<char>, c: Command)
    ensures
        command_named(Some(name)) == Some(c) <==> name == name_of(c),
        command_named(None) == Some(Command::Toggle),
{
    reveal_strlit("toggle");
    reveal_strlit("show");
    reveal_strlit("hide");
    reveal_strlit("quit");
    assert("show"@[0] != "hide"@[0] && "show"@[0] != "quit"@[0] && "hide"@[0] != "quit"@[0]);
}

} // verus!
