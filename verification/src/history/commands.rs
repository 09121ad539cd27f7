//! Results of the history commands: undo, redo, list, check, invalidate,
//! clear, batches.
use vstd::prelude::*;
use crate::errors::{ltp_message, LtpError};
use crate::history::manager::{CheckResult, HistoryEntry, history_view};
use crate::link::types::opt_view;
use crate::output::{err_is, OutputError};
use crate::strutil::{cat3, clone_opt_string, owned};

verus! {

/// Data returned by `undo`.
#[derive(Debug, Clone)]
pub struct UndoData {
    pub seq: u64,
    pub action_undone: String,
    pub command_undone: String,
    pub files_restored: usize,
    pub dry_run: bool,
}

/// Data returned by `redo`.
#[derive(Debug, Clone)]
pub struct RedoData {
    pub seq: u64,
    pub action_redone: String,
    pub command_redone: String,
    pub files_restored: usize,
    pub dry_run: bool,
}

/// Single entry in history list output.
#[derive(Debug, Clone)]
pub struct HistoryEntryOutput {
    pub seq: u64,
    pub timestamp: String,
    pub action: String,
    pub command: String,
    pub batch: Option<String>,
}

/// Data returned by `history` (list).
#[derive(Debug, Clone)]
pub struct HistoryListData {
    pub entries: Vec<HistoryEntryOutput>,
    pub total_count: usize,
}

/// Single check result in output.
#[derive(Debug, Clone)]
pub struct CheckEntryOutput {
    pub seq: u64,
    pub action: String,
    pub valid: bool,
    pub diverged_file: Option<String>,
}

/// Data returned by `history check`.
#[derive(Debug, Clone)]
pub struct HistoryCheckData {
    pub entries: Vec<CheckEntryOutput>,
    pub all_valid: bool,
}

/// Data returned by `history invalidate`.
#[derive(Debug, Clone)]
pub struct HistoryInvalidateData {
    pub entries_removed: usize,
    pub from_seq: u64,
}

/// Data returned by `history clear`.
#[derive(Debug, Clone)]
pub struct HistoryClearData {
    pub cleared: bool,
}

/// Data returned by `history begin-batch`.
#[derive(Debug, Clone)]
pub struct BatchBeginData {
    pub label: String,
}

/// Data returned by `history end-batch`.
#[derive(Debug, Clone)]
pub struct BatchEndData {
    pub label: String,
}

/// The refusal of an undo: a diverged file is named with advice, another
/// error is passed on as `UNDO_ERROR`.
pub fn undo_failure(e: &LtpError) -> (r: OutputError)
    ensures
        match *e {
            LtpError::UndoStateDiverged { file_path } => r.code@ == "UNDO_STATE_DIVERGED"@
                && r.detail@ == "File '"@ + file_path@ + "' has been modified externally. Run `ltp history check`."@,
            _ => r.code@ == "UNDO_ERROR"@ && r.detail@ == ltp_message(*e),
        },
{
    match e {
        LtpError::UndoStateDiverged { file_path } => OutputError::new("UNDO_STATE_DIVERGED",
            cat3("File '", file_path.as_str(), "' has been modified externally. Run `ltp history check`.")),
        _ => OutputError::new("UNDO_ERROR", e.message()),
    }
}

/// The refusal of an undo on an empty stack.
pub fn undo_stack_empty() -> (r: OutputError)
    ensures r.code@ == "UNDO_STACK_EMPTY"@ && r.detail@ == "Nothing to undo"@,
{
    OutputError::new("UNDO_STACK_EMPTY", owned("Nothing to undo"))
}

/// The refusal of a redo: a diverged file is named, another error is
/// passed on as `REDO_ERROR`.
pub fn redo_failure(e: &LtpError) -> (r: OutputError)
    ensures
        match *e {
            LtpError::RedoStateDiverged { file_path } => r.code@ == "REDO_STATE_DIVERGED"@
                && r.detail@ == "File '"@ + file_path@ + "' has been modified externally since undo."@,
            _ => r.code@ == "REDO_ERROR"@ && r.detail@ == ltp_message(*e),
        },
{
    match e {
        LtpError::RedoStateDiverged { file_path } => OutputError::new("REDO_STATE_DIVERGED",
            cat3("File '", file_path.as_str(), "' has been modified externally since undo.")),
        _ => OutputError::new("REDO_ERROR", e.message()),
    }
}

/// The refusal of a redo on an empty stack.
pub fn redo_stack_empty() -> (r: OutputError)
    ensures r.code@ == "REDO_STACK_EMPTY"@ && r.detail@ == "Nothing to redo"@,
{
    OutputError::new("REDO_STACK_EMPTY", owned("Nothing to redo"))
}

/// The data of `history` (list): the entries and their number.
pub fn history_list_data(entries: &Vec<HistoryEntry>) -> (r: HistoryListData)
    ensures
        r.total_count == entries@.len(),
        r.entries@.len() == entries@.len(),
        forall|k: int| 0 <= k < entries@.len() ==> {
            let o = #[trigger] r.entries@[k];
            (o.seq, o.timestamp@, o.action@, o.command@, opt_view(o.batch)) == history_view(entries@[k])
        },
{
    let mut out: Vec<HistoryEntryOutput> = Vec::new();
    let mut i: usize = 0;
    while i < entries.len()
        invariant
            i <= entries@.len(),
            out@.len() == i,
            forall|k: int| 0 <= k < i ==> {
                let o = #[trigger] out@[k];
                (o.seq, o.timestamp@, o.action@, o.command@, opt_view(o.batch)) == history_view(entries@[k])
            },
        decreases entries@.len() - i,
    {
        let e = &entries[i];
        out.push(HistoryEntryOutput {
            seq: e.seq,
            timestamp: e.timestamp.clone(),
            action: e.action.clone(),
            command: e.command.clone(),
            batch: clone_opt_string(&e.batch),
        });
        i = i + 1;
    }
    HistoryListData { entries: out, total_count: entries.len() }
}

/// The data of `history check`: the results, and whether all are valid.
pub fn history_check_data(results: &Vec<CheckResult>) -> (r: HistoryCheckData)
    ensures
        r.all_valid == forall|k: int| 0 <= k < results@.len() ==> (#[trigger] results@[k]).valid,
        r.entries@.len() == results@.len(),
        forall|k: int| 0 <= k < results@.len() ==> {
            let o = #[trigger] r.entries@[k];
            &&& o.seq == results@[k].seq && o.action@ == results@[k].action@ && o.valid == results@[k].valid
            &&& opt_view(o.diverged_file) == opt_view(results@[k].diverged_file)
        },
{
    let mut out: Vec<CheckEntryOutput> = Vec::new();
    let mut all = true;
    let mut i: usize = 0;
    while i < results.len()
        invariant
            i <= results@.len(),
            out@.len() == i,
            all == forall|k: int| 0 <= k < i ==> (#[trigger] results@[k]).valid,
            forall|k: int| 0 <= k < i ==> {
                let o = #[trigger] out@[k];
                &&& o.seq == results@[k].seq && o.action@ == results@[k].action@ && o.valid == results@[k].valid
                &&& opt_view(o.diverged_file) == opt_view(results@[k].diverged_file)
            },
        decreases results@.len() - i,
    {
        let c = &results[i];
        if !c.valid {
            all = false;
        }
        out.push(CheckEntryOutput {
            seq: c.seq,
            action: c.action.clone(),
            valid: c.valid,
            diverged_file: clone_opt_string(&c.diverged_file),
        });
        i = i + 1;
    }
    HistoryCheckData { entries: out, all_valid: all }
}

} // verus!
