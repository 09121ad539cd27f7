//! Locations of the files of a filesystem-backed workspace.
use vstd::prelude::*;
use crate::workspace::paths::{join, join_json, json_path, path_join};

verus! {

/// A workspace rooted at a directory. All of its files lie under `root`.
pub struct FsStorage {
    root: String,
}

impl FsStorage {
    pub closed spec fn spec_root(&self) -> Seq<char> {
        self.root@
    }

    /// Create a new `FsStorage` rooted at the given directory.
    pub fn new(root: String) -> (r: Self)
        ensures r.spec_root() == root@,
    {
        FsStorage { root }
    }

    /// The workspace root.
    pub fn root(&self) -> (r: &String)
        ensures r@ == self.spec_root(),
    {
        &self.root
    }

    /// `<root>/.ltp`: engine-private state.
    pub fn ltp_dir(&self) -> (r: String)
        ensures r@ == path_join(self.spec_root(), ".ltp"@),
    {
        join(self.root.as_str(), ".ltp")
    }

    /// `<root>/.ltp/tmp`: staging area of atomic writes.
    pub fn tmp_dir(&self) -> (r: String)
        ensures r@ == path_join(path_join(self.spec_root(), ".ltp"@), "tmp"@),
    {
        join(self.ltp_dir().as_str(), "tmp")
    }

    /// `<root>/nodes`: the global node pool.
    pub fn nodes_dir(&self) -> (r: String)
        ensures r@ == path_join(self.spec_root(), "nodes"@),
    {
        join(self.root.as_str(), "nodes")
    }

    /// `<root>/trees`.
    pub fn trees_dir(&self) -> (r: String)
        ensures r@ == path_join(self.spec_root(), "trees"@),
    {
        join(self.root.as_str(), "trees")
    }

    /// `<root>/knowledge`: the Knowledge Pool.
    pub fn knowledge_dir(&self) -> (r: String)
        ensures r@ == path_join(self.spec_root(), "knowledge"@),
    {
        join(self.root.as_str(), "knowledge")
    }

    /// `<root>/ltp.config.json`.
    pub fn config_path(&self) -> (r: String)
        ensures r@ == path_join(self.spec_root(), "ltp.config.json"@),
    {
        join(self.root.as_str(), "ltp.config.json")
    }

    /// `<root>/.ltp/lock`.
    pub fn lock_path(&self) -> (r: String)
        ensures r@ == path_join(path_join(self.spec_root(), ".ltp"@), "lock"@),
    {
        join(self.ltp_dir().as_str(), "lock")
    }

    /// `<root>/nodes/<id>.json`.
    pub fn node_path(&self, id: &str) -> (r: String)
        ensures r@ == json_path(path_join(self.spec_root(), "nodes"@), id@),
    {
        join_json(self.nodes_dir().as_str(), id)
    }

    /// `<root>/trees/<id>.json`.
    pub fn tree_path(&self, id: &str) -> (r: String)
        ensures r@ == json_path(path_join(self.spec_root(), "trees"@), id@),
    {
        join_json(self.trees_dir().as_str(), id)
    }

    /// `<root>/knowledge/<id>.json`.
    pub fn knowledge_path(&self, id: &str) -> (r: String)
        ensures r@ == json_path(path_join(self.spec_root(), "knowledge"@), id@),
    {
        join_json(self.knowledge_dir().as_str(), id)
    }
}

} // verus!
