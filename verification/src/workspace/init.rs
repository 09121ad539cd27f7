//! Workspace initialisation: what `init` reports.
use vstd::prelude::*;
use crate::errors::{ltp_message, LtpError};
use crate::output::OutputError;
use crate::strutil::{cat2, owned, views};

verus! {

/// Data returned by `init`.
#[derive(Debug, Clone)]
pub struct InitData {
    pub directories_created: Vec<String>,
    pub config_file: String,
    pub counters_file: String,
}

/// The directories of a workspace, relative to its root.
pub open spec fn workspace_dirs() -> Seq<Seq<char>> {
    seq!["nodes/"@, "trees/"@, "knowledge/"@, ".ltp/"@, ".ltp/undo/"@, ".ltp/redo/"@, ".ltp/tmp/"@]
}

/// The data of a workspace that is (or would be) created.
pub fn init_data() -> (r: InitData)
    ensures
        views(r.directories_created@) == workspace_dirs(),
        r.config_file@ == "ltp.config.json"@,
        r.counters_file@ == ".ltp/counters.json"@,
{
    let mut d: Vec<String> = Vec::new();
    d.push(owned("nodes/"));
    d.push(owned("trees/"));
    d.push(owned("knowledge/"));
    d.push(owned(".ltp/"));
    d.push(owned(".ltp/undo/"));
    d.push(owned(".ltp/redo/"));
    d.push(owned(".ltp/tmp/"));
    proof { assert(views(d@) =~= workspace_dirs()); }
    InitData { directories_created: d, config_file: owned("ltp.config.json"), counters_file: owned(".ltp/counters.json") }
}

/// `Workspace already initialized at <path>`.
pub open spec fn already_initialized_detail(path: Seq<char>) -> Seq<char> {
    "Workspace already initialized at "@ + path
}

/// The refusal of `init` on a workspace that already exists at `path`.
pub fn already_initialized(path: &str) -> (r: OutputError)
    ensures r.code@ == "WORKSPACE_ALREADY_EXISTS"@ && r.detail@ == already_initialized_detail(path@),
{
    OutputError::new("WORKSPACE_ALREADY_EXISTS", cat2("Workspace already initialized at ", path))
}

/// The error reported when creating the workspace failed.
pub fn init_failure(e: &LtpError) -> (r: OutputError)
    ensures
        match e {
            LtpError::WorkspaceAlreadyExists { path } =>
                r.code@ == "WORKSPACE_ALREADY_EXISTS"@ && r.detail@ == already_initialized_detail(path@),
            LtpError::Io(m) => r.code@ == "IO_ERROR"@ && r.detail@ == m@,
            _ => r.code@ == "INTERNAL_ERROR"@ && r.detail@ == ltp_message(*e),
        },
{
    match e {
        LtpError::WorkspaceAlreadyExists { path } => already_initialized(path.as_str()),
        LtpError::Io(m) => OutputError::new("IO_ERROR", m.clone()),
        _ => OutputError::new("INTERNAL_ERROR", e.message()),
    }
}

} // verus!
