//! The workspace lock file and the decision taken when one is found.
use vstd::prelude::*;
use crate::errors::LtpError;
use crate::storage::LockOutcome;

verus! {

#[derive(Debug, Clone)]
pub struct LockFile {
    pub pid: u32,
    pub timestamp: String,
    pub command: String,
}

/// Outcome of acquiring the lock, given the lock file found (if any) and
/// whether its process is still alive: a live holder refuses the lock, a
/// dead one leaves a stale lock that is removed.
pub fn lock_decision(existing: Option<&LockFile>, holder_alive: bool) -> (r: Result<LockOutcome, LtpError>)
    ensures
        match existing {
            None => r == Ok::<LockOutcome, LtpError>(LockOutcome::Acquired),
            Some(l) => if holder_alive {
                r matches Err(LtpError::WorkspaceLocked { pid, timestamp }) && pid == l.pid && timestamp == l.timestamp
            } else {
                r == Ok::<LockOutcome, LtpError>(LockOutcome::StaleLockRemoved { pid: l.pid })
            },
        },
{
    match existing {
        None => Ok(LockOutcome::Acquired),
        Some(l) => {
            if holder_alive {
                Err(LtpError::WorkspaceLocked { pid: l.pid, timestamp: l.timestamp.clone() })
            } else {
                Ok(LockOutcome::StaleLockRemoved { pid: l.pid })
            }
        },
    }
}

} // verus!
