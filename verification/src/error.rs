//! What can go wrong.

use vstd::prelude::*;

verus! {

/// Why the table of suspensions refused an operation or could not be read.
#[derive(Debug, Clone, Copy, PartialEq, Eq, Structural)]
pub enum PersistenceError {
    /// The backing store could not be reached. The table itself never
    /// reports this; whoever keeps the table on disk does.
    Unreachable,
    /// A stored row does not describe a suspension.
    MalformedRow,
    /// The suspension would not end after it began.
    InvalidInterval,
    /// Every identity has been given out.
    IdentityExhausted,
}

/// Why a command was turned down.
#[derive(Debug, Clone, Copy, PartialEq, Eq, Structural)]
pub enum SuspendError {
    /// The caller may not suspend members of this guild.
    Unauthorized,
    /// The member is under a suspension that is still in force.
    AlreadySuspended,
    /// The duration is not a count and a unit, is zero, or ends beyond what
    /// a timestamp can hold.
    InvalidDuration,
    /// The table refused the new record.
    PersistenceError(PersistenceError),
}

} // verus!
