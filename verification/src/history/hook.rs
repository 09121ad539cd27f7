//! Hook invoked around mutations for snapshot-based undo/redo.
use vstd::prelude::*;
use crate::errors::LtpError;

verus! {

/// Invoked before and after mutated files are written, so that
/// implementations can capture file state for the history stack. Paths are
/// given as strings.
pub trait SnapshotHook {
    /// Called before writing mutated files to disk.
    fn before_mutation(&self, affected_files: &Vec<String>) -> Result<(), LtpError>;

    /// Called after mutated files have been written to disk.
    fn after_mutation(&self, affected_files: &Vec<String>) -> Result<(), LtpError>;
}

/// Skips snapshot capture (history disabled).
pub struct NoOpHook;

impl SnapshotHook for NoOpHook {
    fn before_mutation(&self, affected_files: &Vec<String>) -> (r: Result<(), LtpError>)
        ensures r is Ok,
    {
        Ok(())
    }

    fn after_mutation(&self, affected_files: &Vec<String>) -> (r: Result<(), LtpError>)
        ensures r is Ok,
    {
        Ok(())
    }
}

} // verus!
