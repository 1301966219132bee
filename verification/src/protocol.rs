//! What the toggle client and the daemon say to each other, and where.

use vstd::prelude::*;

use crate::filepath::{bytes_of, joined, opt_path_view, FilePath};

verus! {

/// What can go wrong with a socket, as far as the launcher tells it apart.
#[derive(Clone, Copy, Debug, PartialEq, Eq, Structural)]
pub enum ErrorKind {
    AddrInUse,
    NotFound,
    ConnectionRefused,
    UnexpectedEof,
    InvalidData,
    Other,
}

/// A command to the daemon.
#[derive(Clone, Copy, Debug, PartialEq, Eq, Structural)]
pub enum Command {
    Toggle,
    Show,
    Hide,
    Quit,
}

/// The byte that stands for a command.
pub open spec fn command_byte(c: Command) -> u8 {
    match c {
        Command::Toggle => 1,
        Command::Show => 2,
        Command::Hide => 3,
        Command::Quit => 4,
    }
}

/// The command that a byte stands for.
pub open spec fn command_of(b: u8) -> Option<Command> {
    if b == 1 {
        Some(Command::Toggle)
    } else if b == 2 {
        Some(Command::Show)
    } else if b == 3 {
        Some(Command::Hide)
    } else if b == 4 {
        Some(Command::Quit)
    } else {
        None
    }
}

impl Command {
    pub fn from_byte(b: u8) -> (r: Option<Self>)
        ensures
            r == command_of(b),
    {
        match b {
            1 => Some(Self::Toggle),
            2 => Some(Self::Show),
            3 => Some(Self::Hide),
            4 => Some(Self::Quit),
            _ => None,
        }
    }

    /// Adds the message for this command to what is to be sent.
    pub fn write_to(self, w: &mut Vec<u8>)
        ensures
            final(w)@ == old(w)@.push(command_byte(self)),
    {
        w.push(
            match self {
                Self::Toggle => 1,
                Self::Show => 2,
                Self::Hide => 3,
                Self::Quit => 4,
            },
        );
    }

    /// The command in a message, given what reading its one byte came to. A connection that
    /// ends before the byte carries no command.
    pub fn read_from(r: Result<u8, ErrorKind>) -> (command: Result<Option<Self>, ErrorKind>)
        ensures
            command == (match r {
                Ok(b) => Ok(command_of(b)),
                Err(ErrorKind::UnexpectedEof) => Ok(None),
                Err(e) => Err(e),
            }),
    {
        match r {
            Ok(b) => Ok(Self::from_byte(b)),
            Err(ErrorKind::UnexpectedEof) => Ok(None),
            Err(e) => Err(e),
        }
    }
}

/// The directory for run-time files: `XDG_RUNTIME_DIR`, or `/tmp` without it.
pub open spec fn runtime_dir(xdg_runtime_dir: Option<Seq<u8>>) -> Seq<u8> {
    match xdg_runtime_dir {
        Some(dir) => dir,
        None => bytes_of("/tmp"@),
    }
}

fn runtime_dir_path(xdg_runtime_dir: Option<FilePath>) -> (r: FilePath)
    ensures
        r@ == runtime_dir(opt_path_view(xdg_runtime_dir)),
{
    match xdg_runtime_dir {
        Some(dir) => dir,
        None => FilePath::new("/tmp"),
    }
}

/// The socket of the daemon, given `XDG_RUNTIME_DIR`.
pub fn socket_path(xdg_runtime_dir: Option<FilePath>) -> (r: FilePath)
    ensures
        r@ == joined(runtime_dir(opt_path_view(xdg_runtime_dir)), bytes_of("nixly_launcher.sock"@)),
{
    runtime_dir_path(xdg_runtime_dir).join_str("nixly_launcher.sock")
}

/// The lock that its owner holds for as long as it runs, given `XDG_RUNTIME_DIR`. It is a
/// file of its own: the lock is taken before the socket is touched.
pub fn lock_path(xdg_runtime_dir: Option<FilePath>) -> (r: FilePath)
    ensures
        r@ == joined(runtime_dir(opt_path_view(xdg_runtime_dir)), bytes_of("nixly_launcher.lock"@)),
{
    runtime_dir_path(xdg_runtime_dir).join_str("nixly_launcher.lock")
}

/// What is written for a command is read back as that command.
pub proof fn law_command_round_trip(c: Command)
    ensures
        command_of(command_byte(c)) == Some(c),
{
}

/// A byte that is read as a command is the one that is written for it.
pub proof fn law_byte_round_trip(b: u8)
    ensures
        command_of(b) matches Some(c) ==> command_byte(c) == b,
{
}

/// The bytes from 1 to 4 stand for the four commands, in this order; no other byte stands for
/// one.
pub proof fn law_bytes(b: u8)
    ensures
        command_of(b) == Some(Command::Toggle) <==> b == 1,
        command_of(b) == Some(Command::Show) <==> b == 2,
        command_of(b) == Some(Command::Hide) <==> b == 3,
        command_of(b) == Some(Command::Quit) <==> b == 4,
        command_of(b) is None <==> b < 1 || b > 4,
{
}

/// The directory for run-time files is the one that is given, and `/tmp` where none is.
pub proof fn law_runtime_dir(dir: Seq<u8>)
    ensures
        runtime_dir(Some(dir)) == dir,
        runtime_dir(None) == bytes_of("/tmp"@),
{
}

} // verus!
