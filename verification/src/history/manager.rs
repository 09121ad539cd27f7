//! The undo and redo stacks: what an operation records, what an undo
//! checks and writes back, what a redo checks and writes back.
//!
//! Reading and writing the stack files is left to the caller; the functions
//! here take the contents the caller read and return the entries and the
//! file contents to write.
use sha2::Digest;
use vstd::prelude::*;
use crate::errors::LtpError;
use crate::history::types::{
    FileSnapshot, FileSnapshotView, RedoEntry, RedoEntryView, RedoFileSnapshot, RedoFileSnapshotView, UndoEntry,
    UndoEntryView,
};
use crate::link::types::opt_view;
use crate::strutil::{cat2, clone_opt_string, filter_seq, lemma_filter_len, lemma_filter_step, lemma_take_all, owned, u64_to_decimal_pad3};
use crate::workspace::config::HistoryConfig;
use crate::workspace::paths::{join, path_join};

verus! {

/// SHA-256 digest of the UTF-8 encoding of a string.
pub uninterp spec fn spec_sha256(s: Seq<char>) -> Seq<u8>;

/// `sha2::Sha256::digest` of the string's bytes. Its result is named by
/// `spec_sha256`; the contract also states that a SHA-256 digest is 32 bytes.
#[verifier::external_body]
fn sha256_digest(content: &str) -> (r: Vec<u8>)
    ensures
        r@ == spec_sha256(content@),
        r@.len() == 32,
{
    sha2::Sha256::digest(content.as_bytes()).to_vec()
}

/// Lower-case hexadecimal digit.
pub open spec fn hex_digit(d: int) -> char {
    if d < 10 { ((48 + d) as u32) as char } else { ((87 + d) as u32) as char }
}

/// Two lower-case hexadecimal digits per byte.
pub open spec fn hex_of(b: Seq<u8>) -> Seq<char>
    decreases b.len(),
{
    if b.len() == 0 {
        Seq::empty()
    } else {
        hex_of(b.drop_last()) + seq![hex_digit(b.last() as int / 16), hex_digit(b.last() as int % 16)]
    }
}

/// The recorded hash of a content: `sha256:` and the digest in hex.
pub open spec fn hash_text(s: Seq<char>) -> Seq<char> {
    "sha256:"@ + hex_of(spec_sha256(s))
}

/// The hash of a file's content, absent for an absent file.
pub open spec fn hash_opt(c: Option<Seq<char>>) -> Option<Seq<char>> {
    match c {
        Some(s) => Some(hash_text(s)),
        None => None,
    }
}

fn hex_str(d: u8) -> (r: &'static str)
    requires d < 16,
    ensures r@ == seq![hex_digit(d as int)],
{
    proof {
        reveal_strlit("0"); reveal_strlit("1"); reveal_strlit("2"); reveal_strlit("3");
        reveal_strlit("4"); reveal_strlit("5"); reveal_strlit("6"); reveal_strlit("7");
        reveal_strlit("8"); reveal_strlit("9"); reveal_strlit("a"); reveal_strlit("b");
        reveal_strlit("c"); reveal_strlit("d"); reveal_strlit("e"); reveal_strlit("f");
    }
    let r = if d == 0 { "0" } else if d == 1 { "1" } else if d == 2 { "2" } else if d == 3 { "3" }
        else if d == 4 { "4" } else if d == 5 { "5" } else if d == 6 { "6" } else if d == 7 { "7" }
        else if d == 8 { "8" } else if d == 9 { "9" } else if d == 10 { "a" } else if d == 11 { "b" }
        else if d == 12 { "c" } else if d == 13 { "d" } else if d == 14 { "e" } else { "f" };
    assert(r@ =~= seq![hex_digit(d as int)]);
    r
}

/// `sha256:` and the lower-case hex SHA-256 digest of the content.
pub fn sha256_text(content: &str) -> (r: String)
    ensures r@ == hash_text(content@),
{
    let digest = sha256_digest(content);
    let mut s = owned("sha256:");
    let mut i: usize = 0;
    while i < digest.len()
        invariant
            i <= digest@.len(),
            s@ == "sha256:"@ + hex_of(digest@.take(i as int)),
        decreases digest@.len() - i,
    {
        let b = digest[i];
        let hi = hex_str(b / 16);
        let lo = hex_str(b % 16);
        let ghost pre = s@;
        s.append(hi);
        s.append(lo);
        proof {
            assert(digest@.take(i + 1).drop_last() =~= digest@.take(i as int));
            assert(digest@.take(i + 1).last() == b);
            assert(s@ =~= "sha256:"@ + hex_of(digest@.take(i + 1)));
        }
        i = i + 1;
    }
    assert(digest@.take(digest@.len() as int) =~= digest@);
    s
}

fn hash_of_opt(c: &Option<String>) -> (r: Option<String>)
    ensures opt_view(r) == hash_opt(opt_view(*c)),
{
    match c {
        Some(s) => Some(sha256_text(s.as_str())),
        None => None,
    }
}

fn opt_eq(a: &Option<String>, b: &Option<String>) -> (r: bool)
    ensures r == (opt_view(*a) == opt_view(*b)),
{
    match (a, b) {
        (Some(x), Some(y)) => *x == *y,
        (None, None) => true,
        _ => false,
    }
}

/// Manages the undo/redo stacks of a workspace; paths are kept as strings.
pub struct HistoryManager {
    pub root: String,
    pub undo_dir: String,
    pub redo_dir: String,
    pub tmp_dir: String,
    pub config: HistoryConfig,
}

/// Context captured before a mutation: the paths and their contents.
#[derive(Debug, Clone)]
pub struct CaptureContext {
    pub affected_paths: Vec<String>,
    pub before_contents: Vec<(String, Option<String>)>,
}

/// Result of an undo operation.
#[derive(Debug, Clone)]
pub struct UndoResult {
    pub entry: UndoEntry,
    pub files_restored: usize,
}

/// Result of a redo operation.
#[derive(Debug, Clone)]
pub struct RedoResult {
    pub entry: RedoEntry,
    pub files_restored: usize,
}

/// Result of a single entry integrity check.
#[derive(Debug, Clone)]
pub struct CheckResult {
    pub seq: u64,
    pub action: String,
    pub valid: bool,
    pub diverged_file: Option<String>,
}

/// Summary of a history entry for listing.
#[derive(Debug, Clone)]
pub struct HistoryEntry {
    pub seq: u64,
    pub timestamp: String,
    pub action: String,
    pub command: String,
    pub batch: Option<String>,
}

/// The name of a stack entry file: the sequence number padded to three
/// digits, `.json`.
pub open spec fn entry_file_name(seq: u64) -> Seq<char> {
    crate::strutil::zero_pad(crate::strutil::decimal(seq as nat), 3) + ".json"@
}

impl HistoryManager {
    /// A manager for the workspace at `root`: its stacks live under `.ltp`.
    pub fn new(root: String, config: HistoryConfig) -> (r: Self)
        ensures
            r.root@ == root@,
            r.undo_dir@ == path_join(path_join(root@, ".ltp"@), "undo"@),
            r.redo_dir@ == path_join(path_join(root@, ".ltp"@), "redo"@),
            r.tmp_dir@ == path_join(path_join(root@, ".ltp"@), "tmp"@),
            r.config == config,
    {
        let ltp = join(root.as_str(), ".ltp");
        let undo_dir = join(ltp.as_str(), "undo");
        let redo_dir = join(ltp.as_str(), "redo");
        let tmp_dir = join(ltp.as_str(), "tmp");
        HistoryManager { root, undo_dir, redo_dir, tmp_dir, config }
    }

    /// Whether history capture is enabled.
    pub fn is_enabled(&self) -> (r: bool)
        ensures r == self.config.enabled,
    {
        self.config.enabled
    }

    /// `sha256:<hex>` hash of a content.
    pub fn sha256_hash(content: &str) -> (r: String)
        ensures r@ == hash_text(content@),
    {
        sha256_text(content)
    }

    /// Path to an undo entry file.
    pub fn undo_entry_path(&self, seq: u64) -> (r: String)
        ensures r@ == path_join(self.undo_dir@, entry_file_name(seq)),
    {
        let n = u64_to_decimal_pad3(seq);
        let f = cat2(n.as_str(), ".json");
        join(self.undo_dir.as_str(), f.as_str())
    }

    /// Path to a redo entry file.
    pub fn redo_entry_path(&self, seq: u64) -> (r: String)
        ensures r@ == path_join(self.redo_dir@, entry_file_name(seq)),
    {
        let n = u64_to_decimal_pad3(seq);
        let f = cat2(n.as_str(), ".json");
        join(self.redo_dir.as_str(), f.as_str())
    }

    /// Path of the file that marks an active batch.
    pub fn batch_file_path(&self) -> (r: String)
        ensures r@ == path_join(path_join(self.root@, ".ltp"@), "batch_active.json"@),
    {
        let ltp = join(self.root.as_str(), ".ltp");
        join(ltp.as_str(), "batch_active.json")
    }
}

pub open spec fn cur_views(v: Seq<Option<String>>) -> Seq<Option<Seq<char>>> {
    v.map_values(|c: Option<String>| opt_view(c))
}

pub open spec fn write_views(v: Seq<(String, Option<String>)>) -> Seq<(Seq<char>, Option<Seq<char>>)> {
    v.map_values(|p: (String, Option<String>)| (p.0@, opt_view(p.1)))
}

/// The file `k` of the entry holds what the operation left.
pub open spec fn undo_file_ok(e: UndoEntryView, cur: Seq<Option<Seq<char>>>, k: int) -> bool {
    hash_opt(cur[k]) == e.affected_files[k].1.after_hash
}

/// Every file of the entry holds what the operation left: the undo may go
/// ahead. `cur` lists the current contents in the entry's file order.
pub open spec fn undo_ok(e: UndoEntryView, cur: Seq<Option<Seq<char>>>) -> bool {
    &&& cur.len() == e.affected_files.len()
    &&& forall|k: int| 0 <= k < cur.len() ==> #[trigger] undo_file_ok(e, cur, k)
}

/// The redo entry an undo records: for each file, the hash of the content
/// the undo writes back and the current content (which a redo restores).
pub open spec fn redo_of(e: UndoEntryView, cur: Seq<Option<Seq<char>>>) -> RedoEntryView {
    RedoEntryView {
        seq: e.seq,
        action: e.action,
        command: e.command,
        timestamp: e.timestamp,
        affected_files: Seq::new(e.affected_files.len(), |k: int| (e.affected_files[k].0, RedoFileSnapshotView {
            before_hash: hash_opt(e.affected_files[k].1.before),
            after: cur[k],
        })),
    }
}

/// What an undo writes: each file back to its content before the
/// operation (absent: the file is deleted).
pub open spec fn undo_writes(e: UndoEntryView) -> Seq<(Seq<char>, Option<Seq<char>>)> {
    e.affected_files.map_values(|p: (Seq<char>, FileSnapshotView)| (p.0, p.1.before))
}

/// The file `k` of the redo entry holds what the undo left.
pub open spec fn redo_file_ok(e: RedoEntryView, cur: Seq<Option<Seq<char>>>, k: int) -> bool {
    hash_opt(cur[k]) == e.affected_files[k].1.before_hash
}

/// Every file of the redo entry holds what the undo left.
pub open spec fn redo_ok(e: RedoEntryView, cur: Seq<Option<Seq<char>>>) -> bool {
    &&& cur.len() == e.affected_files.len()
    &&& forall|k: int| 0 <= k < cur.len() ==> #[trigger] redo_file_ok(e, cur, k)
}

/// The undo entry a redo records again.
pub open spec fn undo_of(e: RedoEntryView, cur: Seq<Option<Seq<char>>>) -> UndoEntryView {
    UndoEntryView {
        seq: e.seq,
        action: e.action,
        command: e.command,
        timestamp: e.timestamp,
        batch: None,
        affected_files: Seq::new(e.affected_files.len(), |k: int| (e.affected_files[k].0, FileSnapshotView {
            before: cur[k],
            after_hash: hash_opt(e.affected_files[k].1.after),
        })),
    }
}

/// What a redo writes: each file to the content it had before the undo.
pub open spec fn redo_writes(e: RedoEntryView) -> Seq<(Seq<char>, Option<Seq<char>>)> {
    e.affected_files.map_values(|p: (Seq<char>, RedoFileSnapshotView)| (p.0, p.1.after))
}

/// Checks that every file of the undo entry holds what the operation left;
/// the first that does not is reported as diverged.
pub fn verify_undo(entry: &UndoEntry, current: &Vec<Option<String>>) -> (r: Result<(), LtpError>)
    requires current@.len() == entry.affected_files@.len(),
    ensures
        r is Ok <==> undo_ok(entry@, cur_views(current@)),
        forall|k: int| 0 <= k < current@.len() && !undo_file_ok(entry@, cur_views(current@), k)
            && (forall|q: int| 0 <= q < k ==> undo_file_ok(entry@, cur_views(current@), q))
            ==> (r matches Err(LtpError::UndoStateDiverged { file_path }) && file_path@ == entry@.affected_files[k].0),
{
    let ghost cv = cur_views(current@);
    let mut k: usize = 0;
    while k < current.len()
        invariant
            k <= current@.len(),
            current@.len() == entry.affected_files@.len(),
            cv == cur_views(current@),
            forall|q: int| 0 <= q < k ==> undo_file_ok(entry@, cv, q),
        decreases current@.len() - k,
    {
        let h = hash_of_opt(&current[k]);
        if !opt_eq(&h, &entry.affected_files[k].1.after_hash) {
            proof {
                assert(!undo_file_ok(entry@, cv, k as int));
                assert forall|j: int| 0 <= j < current@.len() && !undo_file_ok(entry@, cv, j)
                    && (forall|q: int| 0 <= q < j ==> undo_file_ok(entry@, cv, q)) implies j == k by {
                    if j > k { assert(undo_file_ok(entry@, cv, k as int)); }
                }
            }
            return Err(LtpError::UndoStateDiverged { file_path: entry.affected_files[k].0.clone() });
        }
        k = k + 1;
    }
    Ok(())
}

/// The redo entry an undo records and the files it writes back.
pub fn plan_undo(entry: &UndoEntry, current: &Vec<Option<String>>) -> (r: (RedoEntry, Vec<(String, Option<String>)>))
    requires current@.len() == entry.affected_files@.len(),
    ensures
        r.0@ == redo_of(entry@, cur_views(current@)),
        write_views(r.1@) == undo_writes(entry@),
{
    let mut files: Vec<(String, RedoFileSnapshot)> = Vec::new();
    let mut writes: Vec<(String, Option<String>)> = Vec::new();
    let mut k: usize = 0;
    while k < current.len()
        invariant
            k <= current@.len(),
            current@.len() == entry.affected_files@.len(),
            files@.len() == k,
            writes@.len() == k,
            forall|q: int| 0 <= q < k ==> (#[trigger] files@[q]).0@ == entry@.affected_files[q].0
                && files@[q].1@ == (RedoFileSnapshotView {
                    before_hash: hash_opt(entry@.affected_files[q].1.before),
                    after: cur_views(current@)[q],
                }),
            forall|q: int| 0 <= q < k ==> (#[trigger] writes@[q]).0@ == entry@.affected_files[q].0
                && opt_view(writes@[q].1) == entry@.affected_files[q].1.before,
        decreases current@.len() - k,
    {
        let p = &entry.affected_files[k];
        let bh = hash_of_opt(&p.1.before);
        files.push((p.0.clone(), RedoFileSnapshot { before_hash: bh, after: clone_opt_string(&current[k]) }));
        writes.push((p.0.clone(), clone_opt_string(&p.1.before)));
        k = k + 1;
    }
    let redo = RedoEntry {
        seq: entry.seq,
        action: entry.action.clone(),
        command: entry.command.clone(),
        timestamp: entry.timestamp.clone(),
        affected_files: files,
    };
    proof {
        assert(redo@.affected_files =~= redo_of(entry@, cur_views(current@)).affected_files);
        assert(write_views(writes@) =~= undo_writes(entry@));
    }
    (redo, writes)
}

/// Checks that every file of the redo entry holds what the undo left; the
/// first that does not is reported as diverged.
pub fn verify_redo(entry: &RedoEntry, current: &Vec<Option<String>>) -> (r: Result<(), LtpError>)
    requires current@.len() == entry.affected_files@.len(),
    ensures
        r is Ok <==> redo_ok(entry@, cur_views(current@)),
        forall|k: int| 0 <= k < current@.len() && !redo_file_ok(entry@, cur_views(current@), k)
            && (forall|q: int| 0 <= q < k ==> redo_file_ok(entry@, cur_views(current@), q))
            ==> (r matches Err(LtpError::RedoStateDiverged { file_path }) && file_path@ == entry@.affected_files[k].0),
{
    let ghost cv = cur_views(current@);
    let mut k: usize = 0;
    while k < current.len()
        invariant
            k <= current@.len(),
            current@.len() == entry.affected_files@.len(),
            cv == cur_views(current@),
            forall|q: int| 0 <= q < k ==> redo_file_ok(entry@, cv, q),
        decreases current@.len() - k,
    {
        let h = hash_of_opt(&current[k]);
        if !opt_eq(&h, &entry.affected_files[k].1.before_hash) {
            proof {
                assert(!redo_file_ok(entry@, cv, k as int));
                assert forall|j: int| 0 <= j < current@.len() && !redo_file_ok(entry@, cv, j)
                    && (forall|q: int| 0 <= q < j ==> redo_file_ok(entry@, cv, q)) implies j == k by {
                    if j > k { assert(redo_file_ok(entry@, cv, k as int)); }
                }
            }
            return Err(LtpError::RedoStateDiverged { file_path: entry.affected_files[k].0.clone() });
        }
        k = k + 1;
    }
    Ok(())
}

/// The undo entry a redo records again and the files it writes back.
pub fn plan_redo(entry: &RedoEntry, current: &Vec<Option<String>>) -> (r: (UndoEntry, Vec<(String, Option<String>)>))
    requires current@.len() == entry.affected_files@.len(),
    ensures
        r.0@ == undo_of(entry@, cur_views(current@)),
        write_views(r.1@) == redo_writes(entry@),
{
    let mut files: Vec<(String, FileSnapshot)> = Vec::new();
    let mut writes: Vec<(String, Option<String>)> = Vec::new();
    let mut k: usize = 0;
    while k < current.len()
        invariant
            k <= current@.len(),
            current@.len() == entry.affected_files@.len(),
            files@.len() == k,
            writes@.len() == k,
            forall|q: int| 0 <= q < k ==> (#[trigger] files@[q]).0@ == entry@.affected_files[q].0
                && files@[q].1@ == (FileSnapshotView {
                    before: cur_views(current@)[q],
                    after_hash: hash_opt(entry@.affected_files[q].1.after),
                }),
            forall|q: int| 0 <= q < k ==> (#[trigger] writes@[q]).0@ == entry@.affected_files[q].0
                && opt_view(writes@[q].1) == entry@.affected_files[q].1.after,
        decreases current@.len() - k,
    {
        let p = &entry.affected_files[k];
        let ah = hash_of_opt(&p.1.after);
        files.push((p.0.clone(), FileSnapshot { before: clone_opt_string(&current[k]), after_hash: ah }));
        writes.push((p.0.clone(), clone_opt_string(&p.1.after)));
        k = k + 1;
    }
    let undo = UndoEntry {
        seq: entry.seq,
        action: entry.action.clone(),
        command: entry.command.clone(),
        timestamp: entry.timestamp.clone(),
        batch: None,
        affected_files: files,
    };
    proof {
        assert(undo@.affected_files =~= undo_of(entry@, cur_views(current@)).affected_files);
        assert(write_views(writes@) =~= redo_writes(entry@));
    }
    (undo, writes)
}

/// Undo, then redo. The redo recorded by an accepted undo is accepted on
/// the files as the undo left them; it writes back every file as it was
/// before the undo, and records again the undone entry's files.
pub proof fn law_redo_after_undo(e: UndoEntryView, cur: Seq<Option<Seq<char>>>)
    requires undo_ok(e, cur),
    ensures
        ({
            let r = redo_of(e, cur);
            let undone = undo_writes(e).map_values(|w: (Seq<char>, Option<Seq<char>>)| w.1);
            &&& redo_ok(r, undone)
            &&& redo_writes(r).map_values(|w: (Seq<char>, Option<Seq<char>>)| w.1) == cur
            &&& redo_writes(r).map_values(|w: (Seq<char>, Option<Seq<char>>)| w.0)
                == undo_writes(e).map_values(|w: (Seq<char>, Option<Seq<char>>)| w.0)
            &&& undo_of(r, undone).affected_files == e.affected_files
        }),
{
    let r = redo_of(e, cur);
    let undone = undo_writes(e).map_values(|w: (Seq<char>, Option<Seq<char>>)| w.1);
    assert forall|k: int| 0 <= k < undone.len() implies #[trigger] redo_file_ok(r, undone, k) by {}
    assert(redo_writes(r).map_values(|w: (Seq<char>, Option<Seq<char>>)| w.1) =~= cur);
    assert(redo_writes(r).map_values(|w: (Seq<char>, Option<Seq<char>>)| w.0)
        =~= undo_writes(e).map_values(|w: (Seq<char>, Option<Seq<char>>)| w.0));
    assert forall|k: int| 0 <= k < e.affected_files.len() implies undo_of(r, undone).affected_files[k] == e.affected_files[k] by {
        assert(undo_file_ok(e, cur, k));
    }
    assert(undo_of(r, undone).affected_files =~= e.affected_files);
}

/// Undo restores the operation's before state: each file of the entry is
/// written back to its content before the operation.
pub proof fn law_undo_restores(e: UndoEntryView, k: int)
    requires 0 <= k < e.affected_files.len(),
    ensures
        undo_writes(e)[k].0 == e.affected_files[k].0,
        undo_writes(e)[k].1 == e.affected_files[k].1.before,
{
}

} // verus!

verus! {

/// A file read before an operation, its content then, and its content now.
pub open spec fn zipped(before: Seq<(String, Option<String>)>, after: Seq<Option<String>>) -> Seq<(Seq<char>, Option<Seq<char>>, Option<Seq<char>>)> {
    Seq::new(before.len(), |k: int| (before[k].0@, opt_view(before[k].1), opt_view(after[k])))
}

pub open spec fn changed_selector() -> spec_fn((Seq<char>, Option<Seq<char>>, Option<Seq<char>>)) -> bool {
    |t: (Seq<char>, Option<Seq<char>>, Option<Seq<char>>)| hash_opt(t.2) != hash_opt(t.1)
}

/// The files an operation changed, as recorded: the content before and
/// the hash after; then the files it created.
pub open spec fn captured_files(before: Seq<(String, Option<String>)>, after: Seq<Option<String>>, created: Seq<(String, String)>)
    -> Seq<(Seq<char>, FileSnapshotView)>
{
    filter_seq(zipped(before, after), changed_selector())
        .map_values(|t: (Seq<char>, Option<Seq<char>>, Option<Seq<char>>)| (t.0, FileSnapshotView { before: t.1, after_hash: hash_opt(t.2) }))
    + created.map_values(|c: (String, String)| (c.0@, FileSnapshotView { before: None, after_hash: Some(hash_text(c.1@)) }))
}

/// The current contents of the recorded files, in the entry's order.
pub open spec fn captured_current(before: Seq<(String, Option<String>)>, after: Seq<Option<String>>, created: Seq<(String, String)>)
    -> Seq<Option<Seq<char>>>
{
    filter_seq(zipped(before, after), changed_selector())
        .map_values(|t: (Seq<char>, Option<Seq<char>>, Option<Seq<char>>)| t.2)
    + created.map_values(|c: (String, String)| Some(c.1@))
}

/// The undo entry recording an operation: the files whose hash changed
/// (from `before` to `after`, read in the same order) and the files it
/// created. No entry when nothing changed.
pub fn capture_entry(seq: u64, action: &str, command: &str, timestamp: String, batch: Option<String>,
    before: &Vec<(String, Option<String>)>, after: &Vec<Option<String>>, created: &Vec<(String, String)>) -> (r: Option<UndoEntry>)
    requires after@.len() == before@.len(),
    ensures
        captured_files(before@, after@, created@).len() == 0 ==> r is None,
        captured_files(before@, after@, created@).len() > 0 ==> (r matches Some(e) && e@ == (UndoEntryView {
            seq, action: action@, command: command@, timestamp: timestamp@, batch: opt_view(batch),
            affected_files: captured_files(before@, after@, created@),
        })),
{
    let ghost z = zipped(before@, after@);
    let ghost mk = |t: (Seq<char>, Option<Seq<char>>, Option<Seq<char>>)| (t.0, FileSnapshotView { before: t.1, after_hash: hash_opt(t.2) });
    let mut files: Vec<(String, FileSnapshot)> = Vec::new();
    let mut k: usize = 0;
    while k < before.len()
        invariant
            k <= before@.len(),
            after@.len() == before@.len(),
            z == zipped(before@, after@),
            mk == (|t: (Seq<char>, Option<Seq<char>>, Option<Seq<char>>)| (t.0, FileSnapshotView { before: t.1, after_hash: hash_opt(t.2) })),
            files@.map_values(|p: (String, FileSnapshot)| (p.0@, p.1@)) == filter_seq(z.take(k as int), changed_selector()).map_values(mk),
        decreases before@.len() - k,
    {
        proof { lemma_filter_step(z, changed_selector(), k as int); }
        let bh = hash_of_opt(&before[k].1);
        let ah = hash_of_opt(&after[k]);
        let ghost pre = files@;
        if !opt_eq(&ah, &bh) {
            files.push((before[k].0.clone(), FileSnapshot { before: clone_opt_string(&before[k].1), after_hash: ah }));
            proof {
                assert(files@.map_values(|p: (String, FileSnapshot)| (p.0@, p.1@))
                    =~= pre.map_values(|p: (String, FileSnapshot)| (p.0@, p.1@)).push(mk(z[k as int])));
                assert(filter_seq(z.take(k + 1), changed_selector()).map_values(mk)
                    =~= filter_seq(z.take(k as int), changed_selector()).map_values(mk).push(mk(z[k as int])));
            }
        }
        k = k + 1;
    }
    proof { lemma_take_all(z); }
    let ghost mid = files@;
    let mut c: usize = 0;
    while c < created.len()
        invariant
            c <= created@.len(),
            files@.map_values(|p: (String, FileSnapshot)| (p.0@, p.1@))
                == filter_seq(z, changed_selector()).map_values(mk)
                    + created@.take(c as int).map_values(|x: (String, String)| (x.0@, FileSnapshotView { before: None, after_hash: Some(hash_text(x.1@)) })),
        decreases created@.len() - c,
    {
        let h = sha256_text(created[c].1.as_str());
        let ghost pre = files@;
        files.push((created[c].0.clone(), FileSnapshot { before: None, after_hash: Some(h) }));
        proof {
            assert(files@.map_values(|p: (String, FileSnapshot)| (p.0@, p.1@))
                =~= pre.map_values(|p: (String, FileSnapshot)| (p.0@, p.1@))
                    .push((created@[c as int].0@, FileSnapshotView { before: None, after_hash: Some(hash_text(created@[c as int].1@)) })));
            assert(created@.take(c + 1) =~= created@.take(c as int).push(created@[c as int]));
        }
        c = c + 1;
    }
    proof {
        assert(created@.take(created@.len() as int) =~= created@);
        assert(files@.map_values(|p: (String, FileSnapshot)| (p.0@, p.1@)) == captured_files(before@, after@, created@));
    }
    if files.len() == 0 {
        return None;
    }
    Some(UndoEntry { seq, action: owned(action), command: owned(command), timestamp, batch, affected_files: files })
}

/// The undo entry recording an operation, stamped with the current UTC
/// time; everything but the timestamp is as in `capture_entry`.
pub fn capture_entry_now(seq: u64, action: &str, command: &str, batch: Option<String>,
    before: &Vec<(String, Option<String>)>, after: &Vec<Option<String>>, created: &Vec<(String, String)>) -> (r: Option<UndoEntry>)
    requires after@.len() == before@.len(),
    ensures
        captured_files(before@, after@, created@).len() == 0 ==> r is None,
        captured_files(before@, after@, created@).len() > 0 ==> (r matches Some(e) && e@ == (UndoEntryView {
            seq, action: action@, command: command@, timestamp: e.timestamp@, batch: opt_view(batch),
            affected_files: captured_files(before@, after@, created@),
        })),
{
    let now = crate::clock::now_rfc3339();
    capture_entry(seq, action, command, now, batch, before, after, created)
}

/// What an operation records, an undo accepts: on the files as the
/// operation left them, the undo of its entry is not refused.
pub proof fn law_capture_then_undo(before: Seq<(String, Option<String>)>, after: Seq<Option<String>>, created: Seq<(String, String)>,
    e: UndoEntryView)
    requires
        after.len() == before.len(),
        e.affected_files == captured_files(before, after, created),
    ensures undo_ok(e, captured_current(before, after, created)),
{
    let cur = captured_current(before, after, created);
    let f = filter_seq(zipped(before, after), changed_selector());
    assert forall|k: int| 0 <= k < cur.len() implies #[trigger] undo_file_ok(e, cur, k) by {
        if k < f.len() {
        } else {
        }
    }
}

/// The summary of an undo entry.
pub open spec fn summary_of(e: UndoEntryView) -> (u64, Seq<char>, Seq<char>, Seq<char>, Option<Seq<char>>) {
    (e.seq, e.timestamp, e.action, e.command, e.batch)
}

pub open spec fn history_view(h: HistoryEntry) -> (u64, Seq<char>, Seq<char>, Seq<char>, Option<Seq<char>>) {
    (h.seq, h.timestamp@, h.action@, h.command@, opt_view(h.batch))
}

pub open spec fn is_loaded() -> spec_fn(Option<UndoEntryView>) -> bool {
    |o: Option<UndoEntryView>| o is Some
}

pub open spec fn loaded_views(v: Seq<Option<UndoEntry>>) -> Seq<Option<UndoEntryView>> {
    v.map_values(|o: Option<UndoEntry>| match o { Some(e) => Some(e@), None => None })
}

/// Where the listing starts: the last `n` entries, or all of them.
pub open spec fn list_start(len: int, last: Option<usize>) -> int {
    match last {
        Some(n) => if n < len { len - n } else { 0 },
        None => 0,
    }
}

/// Every element a filter keeps comes from the filtered sequence and passes.
proof fn lemma_filter_from<A>(s: Seq<A>, p: spec_fn(A) -> bool)
    ensures
        forall|k: int| 0 <= k < filter_seq(s, p).len() ==> exists|i: int| 0 <= i < s.len()
            && #[trigger] filter_seq(s, p)[k] == s[i] && p(s[i]),
    decreases s.len(),
{
    if s.len() > 0 {
        let q = s.drop_last();
        lemma_filter_from(q, p);
        assert forall|k: int| 0 <= k < filter_seq(s, p).len() implies exists|i: int| 0 <= i < s.len()
            && #[trigger] filter_seq(s, p)[k] == s[i] && p(s[i]) by {
            if k < filter_seq(q, p).len() {
                let i = choose|i: int| 0 <= i < q.len() && #[trigger] filter_seq(q, p)[k] == q[i] && p(q[i]);
                assert(s[i] == q[i]);
            } else {
                assert(filter_seq(s, p)[k] == s[s.len() - 1]);
            }
        }
    }
}

/// A filter that every element passes keeps them all.
proof fn lemma_filter_all<A>(s: Seq<A>, p: spec_fn(A) -> bool)
    requires forall|i: int| 0 <= i < s.len() ==> p(#[trigger] s[i]),
    ensures filter_seq(s, p) == s,
    decreases s.len(),
{
    if s.len() > 0 {
        let q = s.drop_last();
        assert forall|i: int| 0 <= i < q.len() implies p(#[trigger] q[i]) by { assert(q[i] == s[i]); }
        lemma_filter_all(q, p);
        assert(p(s[s.len() - 1]));
        assert(q.push(s.last()) =~= s);
    }
}

/// `h` is the summary of a readable entry among the last `n` of `loaded`.
pub open spec fn listed_among_last(loaded: Seq<Option<UndoEntryView>>, n: int,
    h: (u64, Seq<char>, Seq<char>, Seq<char>, Option<Seq<char>>)) -> bool {
    exists|i: int| #![trigger loaded[i]] 0 <= i < loaded.len() && loaded.len() <= i + n
        && loaded[i] is Some && h == summary_of(loaded[i]->0)
}

/// `history --last n` lists at most `n` entries, and only among the `n`
/// most recent ones: each listed entry is the summary of a readable entry at
/// one of the last `n` positions of the stack. When every entry is
/// readable, the listing is exactly the `n` most recent entries (all of
/// them when there are fewer), oldest first.
pub proof fn law_history_last_n(
    loaded: Seq<Option<UndoEntryView>>,
    n: usize,
    r: Seq<(u64, Seq<char>, Seq<char>, Seq<char>, Option<Seq<char>>)>,
)
    requires
        r == filter_seq(loaded.subrange(list_start(loaded.len() as int, Some(n)), loaded.len() as int), is_loaded())
            .map_values(|o: Option<UndoEntryView>| summary_of(o->0)),
    ensures
        r.len() <= n,
        forall|k: int| 0 <= k < r.len() ==> #[trigger] listed_among_last(loaded, n as int, r[k]),
        (forall|i: int| 0 <= i < loaded.len() ==> (#[trigger] loaded[i]) is Some) ==> {
            &&& r.len() == if n < loaded.len() { n as int } else { loaded.len() as int }
            &&& forall|k: int| 0 <= k < r.len() ==> #[trigger] r[k] == summary_of(loaded[loaded.len() - r.len() + k]->0)
        },
{
    let start = list_start(loaded.len() as int, Some(n));
    let src = loaded.subrange(start, loaded.len() as int);
    let f = filter_seq(src, is_loaded());
    lemma_filter_len(src, is_loaded());
    lemma_filter_from(src, is_loaded());
    assert forall|k: int| 0 <= k < r.len() implies #[trigger] listed_among_last(loaded, n as int, r[k]) by {
        assert(r.len() == f.len());
        assert(0 <= k < f.len());
        assert(exists|j: int| 0 <= j < src.len() && #[trigger] filter_seq(src, is_loaded())[k] == src[j] && is_loaded()(src[j]));
        let j = choose|j: int| 0 <= j < src.len() && #[trigger] filter_seq(src, is_loaded())[k] == src[j] && is_loaded()(src[j]);
        assert(src[j] == loaded[start + j]);
        assert(r[k] == summary_of(f[k]->0));
        assert(0 <= start + j < loaded.len() && loaded.len() <= start + j + n);
        assert(loaded[start + j] is Some);
    }
    if forall|i: int| 0 <= i < loaded.len() ==> (#[trigger] loaded[i]) is Some {
        assert forall|i: int| 0 <= i < src.len() implies is_loaded()(#[trigger] src[i]) by {
            assert(src[i] == loaded[start + i]);
        }
        lemma_filter_all(src, is_loaded());
        assert forall|k: int| 0 <= k < r.len() implies #[trigger] r[k] == summary_of(loaded[loaded.len() - r.len() + k]->0) by {
            assert(src[k] == loaded[start + k]);
        }
    }
}

/// `history` without `--last` lists every entry: when all entries are
/// readable, the listing is the whole stack in sequence order, oldest first.
pub proof fn law_history_all(
    loaded: Seq<Option<UndoEntryView>>,
    r: Seq<(u64, Seq<char>, Seq<char>, Seq<char>, Option<Seq<char>>)>,
)
    requires
        r == filter_seq(loaded.subrange(list_start(loaded.len() as int, None), loaded.len() as int), is_loaded())
            .map_values(|o: Option<UndoEntryView>| summary_of(o->0)),
        forall|i: int| 0 <= i < loaded.len() ==> (#[trigger] loaded[i]) is Some,
    ensures
        r.len() == loaded.len(),
        forall|k: int| 0 <= k < r.len() ==> #[trigger] r[k] == summary_of(loaded[k]->0),
{
    let src = loaded.subrange(list_start(loaded.len() as int, None), loaded.len() as int);
    assert(src =~= loaded);
    lemma_filter_all(loaded, is_loaded());
}

impl HistoryManager {
    /// The undo stack as listed: of the entries in sequence order (`None`
    /// for one that could not be read), the last `last` (all when absent),
    /// the readable ones, oldest first.
    pub fn list_history(&self, loaded: &Vec<Option<UndoEntry>>, last: Option<usize>) -> (r: Vec<HistoryEntry>)
        ensures
            r@.map_values(|h: HistoryEntry| history_view(h))
                == filter_seq(loaded_views(loaded@).subrange(list_start(loaded@.len() as int, last), loaded@.len() as int), is_loaded())
                    .map_values(|o: Option<UndoEntryView>| summary_of(o->0)),
            last matches Some(m) ==> r@.len() <= m,
            last matches Some(m) ==> forall|k: int| 0 <= k < r@.len()
                ==> #[trigger] listed_among_last(loaded_views(loaded@), m as int, history_view(r@[k])),
    {
        let n = loaded.len();
        let start = match last {
            Some(m) => if m < n { n - m } else { 0 },
            None => 0,
        };
        let ghost src = loaded_views(loaded@).subrange(start as int, n as int);
        let mut out: Vec<HistoryEntry> = Vec::new();
        let mut i: usize = start;
        while i < n
            invariant
                start <= i <= n,
                n == loaded@.len(),
                src == loaded_views(loaded@).subrange(start as int, n as int),
                out@.map_values(|h: HistoryEntry| history_view(h))
                    == filter_seq(src.take(i - start), is_loaded()).map_values(|o: Option<UndoEntryView>| summary_of(o->0)),
            decreases n - i,
        {
            proof {
                lemma_filter_step(src, is_loaded(), i - start);
                assert(src[i - start] == loaded_views(loaded@)[i as int]);
            }
            let ghost pre = out@;
            match &loaded[i] {
                Some(e) => {
                    out.push(HistoryEntry {
                        seq: e.seq,
                        timestamp: e.timestamp.clone(),
                        action: e.action.clone(),
                        command: e.command.clone(),
                        batch: clone_opt_string(&e.batch),
                    });
                    proof {
                        assert(out@.map_values(|h: HistoryEntry| history_view(h))
                            =~= pre.map_values(|h: HistoryEntry| history_view(h)).push(summary_of(e@)));
                        assert(filter_seq(src.take(i - start + 1), is_loaded()).map_values(|o: Option<UndoEntryView>| summary_of(o->0))
                            =~= filter_seq(src.take(i - start), is_loaded()).map_values(|o: Option<UndoEntryView>| summary_of(o->0)).push(summary_of(e@)));
                    }
                },
                None => {},
            }
            i = i + 1;
        }
        proof {
            lemma_take_all(src);
            if let Some(m) = last {
                let rv = out@.map_values(|h: HistoryEntry| history_view(h));
                law_history_last_n(loaded_views(loaded@), m, rv);
                assert forall|k: int| 0 <= k < out@.len()
                    implies #[trigger] listed_among_last(loaded_views(loaded@), m as int, history_view(out@[k])) by {
                    assert(rv[k] == history_view(out@[k]));
                }
            }
        }
        out
    }
}

/// The integrity of one undo entry against the current contents of its
/// files: valid when every file holds what the operation left, otherwise
/// the first file that does not.
pub fn check_entry(entry: &UndoEntry, current: &Vec<Option<String>>) -> (r: CheckResult)
    requires current@.len() == entry.affected_files@.len(),
    ensures
        r.seq == entry.seq,
        r.action@ == entry.action@,
        r.valid == undo_ok(entry@, cur_views(current@)),
        r.valid ==> r.diverged_file is None,
        forall|k: int| 0 <= k < current@.len() && !undo_file_ok(entry@, cur_views(current@), k)
            && (forall|q: int| 0 <= q < k ==> undo_file_ok(entry@, cur_views(current@), q))
            ==> (r.diverged_file matches Some(p) && p@ == entry@.affected_files[k].0),
{
    match verify_undo(entry, current) {
        Ok(()) => CheckResult { seq: entry.seq, action: entry.action.clone(), valid: true, diverged_file: None },
        Err(e) => {
            let d = match e {
                LtpError::UndoStateDiverged { file_path } => Some(file_path),
                _ => None,
            };
            CheckResult { seq: entry.seq, action: entry.action.clone(), valid: false, diverged_file: d }
        },
    }
}

/// Sorted ascending.
pub open spec fn sorted_u64(s: Seq<u64>) -> bool {
    forall|i: int, j: int| 0 <= i <= j < s.len() ==> s[i] <= s[j]
}

/// The sequence numbers in ascending order.
pub fn sort_seqs(v: &Vec<u64>) -> (r: Vec<u64>)
    ensures
        sorted_u64(r@),
        r@.to_multiset() == v@.to_multiset(),
{
    let mut r: Vec<u64> = Vec::new();
    let mut i: usize = 0;
    assert(v@.take(0) =~= r@);
    while i < v.len()
        invariant
            i <= v@.len(),
            sorted_u64(r@),
            r@.to_multiset() == v@.take(i as int).to_multiset(),
        decreases v@.len() - i,
    {
        let x = v[i];
        let mut p: usize = 0;
        while p < r.len() && r[p] <= x
            invariant
                p <= r@.len(),
                forall|q: int| 0 <= q < p ==> r@[q] <= x,
            decreases r@.len() - p,
        {
            p = p + 1;
        }
        let ghost pre = r@;
        r.insert(p, x);
        proof {
            assert(v@.take(i + 1) =~= v@.take(i as int).push(x));
            assert(r@ =~= pre.insert(p as int, x));
            vstd::seq_lib::to_multiset_insert(pre, p as int, x);
            vstd::seq_lib::to_multiset_build(v@.take(i as int), x);
            assert forall|a: int, b: int| 0 <= a <= b < r@.len() implies r@[a] <= r@[b] by {
                if b < p {
                } else if b == p {
                    if a < p { assert(pre[a] <= x); }
                } else if a < p {
                    assert(r@[b] == pre[b - 1]);
                    if p < pre.len() { assert(x < pre[p as int]); assert(pre[a] <= pre[b - 1]); }
                } else if a == p {
                    assert(x < pre[p as int]);
                    assert(pre[p as int] <= pre[b - 1]);
                } else {
                    assert(pre[a - 1] <= pre[b - 1]);
                }
            }
        }
        i = i + 1;
    }
    assert(v@.take(v@.len() as int) =~= v@);
    r
}

/// The sequence number named by an entry file name `<number>.json`.
pub fn seq_of_file_name(name: &str) -> (r: Option<u64>)
    ensures
        match crate::workspace::counters::stem_number(name@) {
            Some(n) => r == Some(n as u64),
            None => r is None,
        },
{
    let chars = crate::strutil::chars_of(name);
    let n = chars.len();
    if n < 5 {
        return None;
    }
    let suffix_ok = chars[n - 5] == '.' && chars[n - 4] == 'j' && chars[n - 3] == 's' && chars[n - 2] == 'o' && chars[n - 1] == 'n';
    proof { reveal_strlit(".json"); }
    if !suffix_ok {
        proof { assert(name@.subrange(n - 5, n as int) != ".json"@) by {
            if name@.subrange(n - 5, n as int) == ".json"@ {
                assert(name@.subrange(n - 5, n as int)[0] == name@[n - 5]);
                assert(name@.subrange(n - 5, n as int)[4] == name@[n - 1]);
                assert(name@.subrange(n - 5, n as int)[1] == name@[n - 4]);
                assert(name@.subrange(n - 5, n as int)[2] == name@[n - 3]);
                assert(name@.subrange(n - 5, n as int)[3] == name@[n - 2]);
            }
        } }
        return None;
    }
    assert(name@.subrange(n - 5, n as int) =~= ".json"@);
    let mut stem: Vec<char> = Vec::new();
    let mut i: usize = 0;
    while i < n - 5
        invariant
            n == chars@.len(),
            chars@ == name@,
            n >= 5,
            i <= n - 5,
            stem@ == name@.subrange(0, i as int),
        decreases n - 5 - i,
    {
        stem.push(chars[i]);
        proof { assert(name@.subrange(0, i + 1) =~= name@.subrange(0, i as int).push(name@[i as int])); }
        i = i + 1;
    }
    let r = crate::workspace::counters::parse_decimal(&stem, 0);
    assert(stem@.subrange(0, stem@.len() as int) =~= stem@);
    r
}

/// The next sequence number: one past the last of the ascending list, 1
/// for an empty list.
pub fn next_seq(sorted: &Vec<u64>) -> (r: u64)
    requires
        sorted@.len() > 0 ==> sorted@.last() < u64::MAX,
    ensures
        sorted@.len() == 0 ==> r == 1,
        sorted@.len() > 0 ==> r == sorted@.last() + 1,
{
    if sorted.len() == 0 { 1 } else { sorted[sorted.len() - 1] + 1 }
}

/// The sequence numbers at or after `from_seq`, in order (the entries
/// `history invalidate` discards).
pub fn seqs_from(seqs: &Vec<u64>, from_seq: u64) -> (r: Vec<u64>)
    ensures r@ == filter_seq(seqs@, |s: u64| s >= from_seq),
{
    let ghost p = |s: u64| s >= from_seq;
    let mut r: Vec<u64> = Vec::new();
    let mut i: usize = 0;
    while i < seqs.len()
        invariant
            i <= seqs@.len(),
            p == (|s: u64| s >= from_seq),
            r@ == filter_seq(seqs@.take(i as int), p),
        decreases seqs@.len() - i,
    {
        proof { lemma_filter_step(seqs@, p, i as int); }
        if seqs[i] >= from_seq {
            r.push(seqs[i]);
        }
        i = i + 1;
    }
    proof { lemma_take_all(seqs@); }
    r
}

/// One step of the undo stack rotation: with the stack's size in bytes,
/// the oldest entry to remove while the size is over the configured cap
/// (none when no cap is set).
pub fn rotation_victim(config: &HistoryConfig, current_size: u64, sorted: &Vec<u64>) -> (r: Option<u64>)
    ensures
        ({
            let max_bytes = config.max_size_mb as int * 1024 * 1024;
            &&& (max_bytes == 0 || current_size <= max_bytes || sorted@.len() == 0) ==> r is None
            &&& (max_bytes != 0 && current_size > max_bytes && sorted@.len() > 0) ==> r == Some(sorted@[0])
        }),
{
    let max_bytes: u64 = (config.max_size_mb as u64) * 1024 * 1024;
    if max_bytes == 0 || current_size <= max_bytes || sorted.len() == 0 {
        None
    } else {
        Some(sorted[0])
    }
}

} // verus!
