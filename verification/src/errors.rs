//! Engine error kinds.
use vstd::prelude::*;
use crate::strutil::{cat2, cat3, cat4, decimal, u64_to_decimal};

verus! {

/// Errors raised by the engine's operations. I/O and JSON failures carry
/// the message of the underlying error.
#[derive(Debug, Clone)]
pub enum LtpError {
    NodeNotFound(String),
    TreeNotFound(String),
    LinkNotFound(String),
    AssumptionNotFound(String),
    CircularDependencyDetected { tree_id: String, cycle_path: Vec<String> },
    ReferentialIntegrityViolation { node_id: String },
    WorkspaceLocked { pid: u32, timestamp: String },
    StaleLockRemoved { pid: u32 },
    UndoStateDiverged { file_path: String },
    RedoStateDiverged { file_path: String },
    WorkspaceNotInitialized,
    WorkspaceAlreadyExists { path: String },
    InvalidOperatorTransition { from: String, to: String },
    NodeNotInTree { node_id: String, tree_id: String },
    DuplicateNodeId(String),
    EcValidation(String),
    Io(String),
    Json(String),
}

/// The human-readable message of an error.
pub open spec fn ltp_message(e: LtpError) -> Seq<char> {
    match e {
        LtpError::NodeNotFound(s) => "node not found: "@ + s@,
        LtpError::TreeNotFound(s) => "tree not found: "@ + s@,
        LtpError::LinkNotFound(s) => "link not found: "@ + s@,
        LtpError::AssumptionNotFound(s) => "assumption not found: "@ + s@,
        LtpError::CircularDependencyDetected { tree_id, .. } => "circular dependency detected in tree "@ + tree_id@,
        LtpError::ReferentialIntegrityViolation { node_id } =>
            "referential integrity violation: node "@ + node_id@ + " referenced in edge but not in pool"@,
        LtpError::WorkspaceLocked { pid, timestamp } =>
            "workspace locked by PID "@ + decimal(pid as nat) + " since "@ + timestamp@,
        LtpError::StaleLockRemoved { pid } => "stale lock removed (PID "@ + decimal(pid as nat) + " not alive)"@,
        LtpError::UndoStateDiverged { file_path } =>
            "undo state diverged: file "@ + file_path@ + " has been modified externally"@,
        LtpError::RedoStateDiverged { file_path } =>
            "redo state diverged: file "@ + file_path@ + " has been modified externally"@,
        LtpError::WorkspaceNotInitialized => "workspace not initialized (run `ltp init` first)"@,
        LtpError::WorkspaceAlreadyExists { path } => "workspace already exists at "@ + path@,
        LtpError::InvalidOperatorTransition { from, to } =>
            "invalid operator transition: "@ + from@ + " -> "@ + to@,
        LtpError::NodeNotInTree { node_id, tree_id } =>
            "node "@ + node_id@ + " is not attached to tree "@ + tree_id@,
        LtpError::DuplicateNodeId(s) => "duplicate node ID: "@ + s@,
        LtpError::EcValidation(s) => "EC validation: "@ + s@,
        LtpError::Io(s) => "IO error: "@ + s@,
        LtpError::Json(s) => "JSON error: "@ + s@,
    }
}

impl LtpError {
    /// The human-readable message of the error.
    pub fn message(&self) -> (r: String)
        ensures r@ == ltp_message(*self),
    {
        match self {
            LtpError::NodeNotFound(s) => cat2("node not found: ", s.as_str()),
            LtpError::TreeNotFound(s) => cat2("tree not found: ", s.as_str()),
            LtpError::LinkNotFound(s) => cat2("link not found: ", s.as_str()),
            LtpError::AssumptionNotFound(s) => cat2("assumption not found: ", s.as_str()),
            LtpError::CircularDependencyDetected { tree_id, .. } =>
                cat2("circular dependency detected in tree ", tree_id.as_str()),
            LtpError::ReferentialIntegrityViolation { node_id } =>
                cat3("referential integrity violation: node ", node_id.as_str(), " referenced in edge but not in pool"),
            LtpError::WorkspaceLocked { pid, timestamp } => {
                let p = u64_to_decimal(*pid as u64);
                cat4("workspace locked by PID ", p.as_str(), " since ", timestamp.as_str())
            },
            LtpError::StaleLockRemoved { pid } => {
                let p = u64_to_decimal(*pid as u64);
                cat3("stale lock removed (PID ", p.as_str(), " not alive)")
            },
            LtpError::UndoStateDiverged { file_path } =>
                cat3("undo state diverged: file ", file_path.as_str(), " has been modified externally"),
            LtpError::RedoStateDiverged { file_path } =>
                cat3("redo state diverged: file ", file_path.as_str(), " has been modified externally"),
            LtpError::WorkspaceNotInitialized => String::from_str("workspace not initialized (run `ltp init` first)"),
            LtpError::WorkspaceAlreadyExists { path } => cat2("workspace already exists at ", path.as_str()),
            LtpError::InvalidOperatorTransition { from, to } =>
                cat4("invalid operator transition: ", from.as_str(), " -> ", to.as_str()),
            LtpError::NodeNotInTree { node_id, tree_id } =>
                cat4("node ", node_id.as_str(), " is not attached to tree ", tree_id.as_str()),
            LtpError::DuplicateNodeId(s) => cat2("duplicate node ID: ", s.as_str()),
            LtpError::EcValidation(s) => cat2("EC validation: ", s.as_str()),
            LtpError::Io(s) => cat2("IO error: ", s.as_str()),
            LtpError::Json(s) => cat2("JSON error: ", s.as_str()),
        }
    }
}

} // verus!
