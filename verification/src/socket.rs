//! Who owns the daemon's socket.

use vstd::prelude::*;

use crate::protocol::ErrorKind;

verus! {

/// Whether an error says that another daemon owns the socket already.
pub fn already_running(e: ErrorKind) -> (r: bool)
    ensures
        r == (e == ErrorKind::AddrInUse),
{
    e == ErrorKind::AddrInUse
}

/// What taking the lock came to: the lock, or the error that says who has it. Whatever the
/// reason for which the lock was refused, it is reported as an address in use.
pub fn lock_outcome(locked: bool) -> (r: Result<(), ErrorKind>)
    ensures
        r == (if locked {
            Ok::<(), ErrorKind>(())
        } else {
            Err(ErrorKind::AddrInUse)
        }),
{
    if locked {
        Ok(())
    } else {
        Err(ErrorKind::AddrInUse)
    }
}

} // verus!
