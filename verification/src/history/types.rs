//! Entries of the undo and redo stacks.
use vstd::prelude::*;
use crate::link::types::opt_view;

verus! {

/// One file of an undo entry: its content before the operation (absent
/// when the operation created it) and the hash of its content after.
#[derive(Debug, Clone)]
pub struct FileSnapshot {
    pub before: Option<String>,
    pub after_hash: Option<String>,
}

pub struct FileSnapshotView {
    pub before: Option<Seq<char>>,
    pub after_hash: Option<Seq<char>>,
}

impl View for FileSnapshot {
    type V = FileSnapshotView;

    open spec fn view(&self) -> FileSnapshotView {
        FileSnapshotView { before: opt_view(self.before), after_hash: opt_view(self.after_hash) }
    }
}

/// An operation that can be undone; its files are listed by path.
#[derive(Debug, Clone)]
pub struct UndoEntry {
    pub seq: u64,
    pub action: String,
    pub command: String,
    pub timestamp: String,
    pub batch: Option<String>,
    pub affected_files: Vec<(String, FileSnapshot)>,
}

pub struct UndoEntryView {
    pub seq: u64,
    pub action: Seq<char>,
    pub command: Seq<char>,
    pub timestamp: Seq<char>,
    pub batch: Option<Seq<char>>,
    pub affected_files: Seq<(Seq<char>, FileSnapshotView)>,
}

impl View for UndoEntry {
    type V = UndoEntryView;

    open spec fn view(&self) -> UndoEntryView {
        UndoEntryView {
            seq: self.seq,
            action: self.action@,
            command: self.command@,
            timestamp: self.timestamp@,
            batch: opt_view(self.batch),
            affected_files: self.affected_files@.map_values(|p: (String, FileSnapshot)| (p.0@, p.1@)),
        }
    }
}

/// One file of a redo entry: the hash of its content once undone and the
/// content the redo writes back (absent when the redo deletes it).
#[derive(Debug, Clone)]
pub struct RedoFileSnapshot {
    pub before_hash: Option<String>,
    pub after: Option<String>,
}

pub struct RedoFileSnapshotView {
    pub before_hash: Option<Seq<char>>,
    pub after: Option<Seq<char>>,
}

impl View for RedoFileSnapshot {
    type V = RedoFileSnapshotView;

    open spec fn view(&self) -> RedoFileSnapshotView {
        RedoFileSnapshotView { before_hash: opt_view(self.before_hash), after: opt_view(self.after) }
    }
}

/// An undone operation that can be redone.
#[derive(Debug, Clone)]
pub struct RedoEntry {
    pub seq: u64,
    pub action: String,
    pub command: String,
    pub timestamp: String,
    pub affected_files: Vec<(String, RedoFileSnapshot)>,
}

pub struct RedoEntryView {
    pub seq: u64,
    pub action: Seq<char>,
    pub command: Seq<char>,
    pub timestamp: Seq<char>,
    pub affected_files: Seq<(Seq<char>, RedoFileSnapshotView)>,
}

impl View for RedoEntry {
    type V = RedoEntryView;

    open spec fn view(&self) -> RedoEntryView {
        RedoEntryView {
            seq: self.seq,
            action: self.action@,
            command: self.command@,
            timestamp: self.timestamp@,
            affected_files: self.affected_files@.map_values(|p: (String, RedoFileSnapshot)| (p.0@, p.1@)),
        }
    }
}

} // verus!
