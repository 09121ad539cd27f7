//! Outcomes of workspace lock acquisition.
use vstd::prelude::*;

verus! {

/// Outcome of a lock acquisition attempt that may involve stale-lock cleanup.
#[derive(Debug, Clone, Copy, PartialEq, Eq, Structural)]
pub enum LockOutcome {
    /// Lock acquired cleanly.
    Acquired,
    /// A stale lock was removed before acquiring; contains the dead PID.
    StaleLockRemoved { pid: u32 },
}

} // verus!
