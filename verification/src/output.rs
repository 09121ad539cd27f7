//! Structured results of engine commands: errors, warnings, graph health.
use vstd::prelude::*;
use crate::strutil::{cat3, cat5, owned, u64_to_decimal, decimal};

verus! {

#[derive(Debug, Clone, Copy, PartialEq, Eq, Structural)]
pub struct GraphHealth {
    pub valid_dag: bool,
    pub orphan_nodes_count: usize,
}

/// The default health of a command that does not inspect the graph.
pub fn healthy() -> (r: GraphHealth)
    ensures r.valid_dag, r.orphan_nodes_count == 0,
{
    GraphHealth { valid_dag: true, orphan_nodes_count: 0 }
}

/// A value attached to an error or warning under a context key.
#[derive(Debug, Clone)]
pub enum ContextValue {
    Str(String),
    Num(u64),
    List(Vec<String>),
}

/// Abstract context value.
pub enum ContextValueView {
    Str(Seq<char>),
    Num(u64),
    List(Seq<Seq<char>>),
}

impl View for ContextValue {
    type V = ContextValueView;

    open spec fn view(&self) -> ContextValueView {
        match self {
            ContextValue::Str(s) => ContextValueView::Str(s@),
            ContextValue::Num(n) => ContextValueView::Num(*n),
            ContextValue::List(v) => ContextValueView::List(crate::strutil::views(v@)),
        }
    }
}

/// The value stored under `key` in a context list (the last one wins; keys
/// are kept unique by `with_context`).
pub open spec fn context_get(ctx: Seq<(String, ContextValue)>, key: Seq<char>) -> Option<ContextValueView>
    decreases ctx.len(),
{
    if ctx.len() == 0 {
        None
    } else if ctx.last().0@ == key {
        Some(ctx.last().1@)
    } else {
        context_get(ctx.drop_last(), key)
    }
}

fn context_insert(ctx: &mut Vec<(String, ContextValue)>, key: String, value: ContextValue)
    ensures
        forall|k: Seq<char>| k != key@ ==> context_get(final(ctx)@, k) == context_get(old(ctx)@, k),
        context_get(final(ctx)@, key@) == Some(value@),
{
    let ghost pre = ctx@;
    ctx.push((key, value));
    proof {
        assert(ctx@.drop_last() =~= pre);
    }
}

/// A blocking problem reported by a command.
#[derive(Debug, Clone)]
pub struct OutputError {
    pub code: String,
    pub detail: String,
    pub context: Vec<(String, ContextValue)>,
}

impl OutputError {
    pub fn new(code: &str, detail: String) -> (r: Self)
        ensures r.code@ == code@, r.detail@ == detail@, r.context@.len() == 0,
    {
        OutputError { code: owned(code), detail, context: Vec::new() }
    }

    pub fn with_context(self, key: &str, value: ContextValue) -> (r: Self)
        ensures
            r.code == self.code,
            r.detail == self.detail,
            context_get(r.context@, key@) == Some(value@),
            forall|k: Seq<char>| k != key@ ==> context_get(r.context@, k) == context_get(self.context@, k),
    {
        let mut s = self;
        context_insert(&mut s.context, owned(key), value);
        s
    }
}

/// A non-blocking finding reported by a command.
#[derive(Debug, Clone)]
pub struct OutputWarning {
    pub code: String,
    pub detail: String,
    pub context: Vec<(String, ContextValue)>,
}

impl OutputWarning {
    pub fn new(code: &str, detail: String) -> (r: Self)
        ensures r.code@ == code@, r.detail@ == detail@, r.context@.len() == 0,
    {
        OutputWarning { code: owned(code), detail, context: Vec::new() }
    }

    pub fn with_context(self, key: &str, value: ContextValue) -> (r: Self)
        ensures
            r.code == self.code,
            r.detail == self.detail,
            context_get(r.context@, key@) == Some(value@),
            forall|k: Seq<char>| k != key@ ==> context_get(r.context@, k) == context_get(self.context@, k),
    {
        let mut s = self;
        context_insert(&mut s.context, owned(key), value);
        s
    }

    /// The value stored under `key`, if any.
    pub fn context_value(&self, key: &str) -> (r: Option<&ContextValue>)
        ensures
            match r {
                Some(v) => context_get(self.context@, key@) == Some(v@),
                None => context_get(self.context@, key@) is None,
            },
    {
        let k = owned(key);
        let mut i = self.context.len();
        assert(self.context@.subrange(0, i as int) =~= self.context@);
        while i > 0
            invariant
                k@ == key@,
                i <= self.context@.len(),
                context_get(self.context@, k@) == context_get(self.context@.subrange(0, i as int), k@),
            decreases i,
        {
            proof {
                let s = self.context@.subrange(0, i as int);
                assert(s.drop_last() =~= self.context@.subrange(0, i - 1));
            }
            if self.context[i - 1].0 == k {
                proof {
                    let s = self.context@.subrange(0, i as int);
                    assert(s.last() == self.context@[i - 1]);
                    assert(s.last().0@ == k@);
                    assert(context_get(s, k@) == Some(s.last().1@));
                }
                let pair = &self.context[i - 1];
                let v = &pair.1;
                assert(*pair == self.context@[i - 1]);
                assert(v@ == self.context@[i - 1].1@);
                assert(context_get(self.context@, key@) == Some(v@));
                return Some(v);
            }
            i = i - 1;
        }
        None
    }
}

/// The result is a refusal with this code and detail.
pub open spec fn err_is<T>(r: Result<T, OutputError>, code: Seq<char>, detail: Seq<char>) -> bool {
    match r {
        Err(e) => e.code@ == code && e.detail@ == detail,
        Ok(_) => false,
    }
}

/// `Node '<node>' is not attached to tree '<tree>'`.
pub open spec fn not_in_tree_detail(node: Seq<char>, tree: Seq<char>) -> Seq<char> {
    "Node '"@ + node + "' is not attached to tree '"@ + tree + "'"@
}

/// The error for a node that is not attached to a tree.
pub fn not_in_tree_error(node: &str, tree: &str) -> (e: OutputError)
    ensures
        e.code@ == "NODE_NOT_IN_TREE"@,
        e.detail@ == not_in_tree_detail(node@, tree@),
        e.context@.len() == 0,
{
    OutputError::new("NODE_NOT_IN_TREE", cat5("Node '", node, "' is not attached to tree '", tree, "'"))
}

/// `<what> '<id>' <rest>`, the shape of most not-found messages.
pub open spec fn quoted_detail(what: Seq<char>, id: Seq<char>, rest: Seq<char>) -> Seq<char> {
    what + " '"@ + id + "'"@ + rest
}

/// An error whose detail names one identifier in quotes.
pub fn quoted_error(code: &str, what: &str, id: &str, rest: &str) -> (e: OutputError)
    ensures
        e.code@ == code@,
        e.detail@ == quoted_detail(what@, id@, rest@),
        e.context@.len() == 0,
{
    OutputError::new(code, cat5(what, " '", id, "'", rest))
}

/// Message of the warning issued when a stale lock was cleared.
pub open spec fn stale_lock_detail(pid: u32) -> Seq<char> {
    "Stale lock from PID "@ + decimal(pid as nat) + " was removed"@
}

/// The warning issued when the lock of a dead process was removed.
pub fn stale_lock_warning(outcome: &crate::storage::LockOutcome) -> (r: Option<OutputWarning>)
    ensures
        match *outcome {
            crate::storage::LockOutcome::Acquired => r is None,
            crate::storage::LockOutcome::StaleLockRemoved { pid } => r matches Some(w)
                && w.code@ == "STALE_LOCK_REMOVED"@
                && w.detail@ == stale_lock_detail(pid)
                && w.context@.len() == 0,
        },
{
    match outcome {
        crate::storage::LockOutcome::StaleLockRemoved { pid } => {
            let n = u64_to_decimal(*pid as u64);
            Some(OutputWarning::new("STALE_LOCK_REMOVED", cat3("Stale lock from PID ", n.as_str(), " was removed")))
        }
        crate::storage::LockOutcome::Acquired => None,
    }
}

/// A warning has this code and detail and carries these context entries.
pub open spec fn warning_is(w: OutputWarning, code: Seq<char>, detail: Seq<char>, ctx: Seq<(Seq<char>, ContextValueView)>) -> bool {
    &&& w.code@ == code
    &&& w.detail@ == detail
    &&& forall|k: int| 0 <= k < ctx.len() ==> context_get(w.context@, (#[trigger] ctx[k]).0) == Some(ctx[k].1)
}

/// The warnings are, one for one, the expected (code, detail, context).
pub open spec fn warnings_are(ws: Seq<OutputWarning>, expected: Seq<(Seq<char>, Seq<char>, Seq<(Seq<char>, ContextValueView)>)>) -> bool {
    &&& ws.len() == expected.len()
    &&& forall|k: int| 0 <= k < ws.len() ==> warning_is(#[trigger] ws[k], expected[k].0, expected[k].1, expected[k].2)
}

/// Expected warnings concatenate with the warnings that meet them.
pub proof fn lemma_warnings_concat(
    a: Seq<OutputWarning>, ea: Seq<(Seq<char>, Seq<char>, Seq<(Seq<char>, ContextValueView)>)>,
    b: Seq<OutputWarning>, eb: Seq<(Seq<char>, Seq<char>, Seq<(Seq<char>, ContextValueView)>)>,
)
    requires warnings_are(a, ea), warnings_are(b, eb),
    ensures warnings_are(a + b, ea + eb),
{
    assert forall|k: int| 0 <= k < (a + b).len() implies
        warning_is(#[trigger] (a + b)[k], (ea + eb)[k].0, (ea + eb)[k].1, (ea + eb)[k].2) by {
        if k < a.len() {
            assert((a + b)[k] == a[k]);
            assert((ea + eb)[k] == ea[k]);
        } else {
            assert((a + b)[k] == b[k - a.len()]);
            assert((ea + eb)[k] == eb[k - a.len()]);
        }
    }
}

} // verus!
