//! Workspace validation: structural checks (DAG, references, EC rules)
//! and CLR lints, tree by tree.
pub mod acyclic;
pub mod clr;
pub mod dag;
pub mod ec;
pub mod integrity;
pub mod knowledge;
pub mod macro_edge;
pub mod orphans;

pub use dag::check_dag;

use vstd::prelude::*;
use crate::errors::{ltp_message, LtpError};
use crate::node::types::Node;
use crate::output::{ContextValue, ContextValueView, OutputError, OutputWarning};
use crate::strutil::{cat3, cat5, lemma_take_all};
use crate::tree::types::{NbrBranch, Tree, TreeType};
use crate::validate::clr::{
    clr2_result, excessive_and, incoming, insufficient, intangibles, inversions, is_clr4_5_warning, is_clr4_warning,
    is_clr6_warning, is_clr7_warning, outgoing_count, warned_node,
};
use crate::validate::dag::acyclic;
use crate::validate::ec::{ec_findings, is_ec_error};
use crate::validate::integrity::{is_integrity_error, missing_refs};
use crate::validate::orphans::{is_orphan_warning, orphan_ids};

verus! {

/// Per-tree validation results.
#[derive(Debug, Clone)]
pub struct TreeValidation {
    pub tree_id: String,
    pub errors: Vec<OutputError>,
    pub warnings: Vec<OutputWarning>,
}

/// Top-level validate output data.
#[derive(Debug, Clone)]
pub struct ValidateData {
    pub trees_validated: usize,
    pub total_errors: usize,
    pub total_warnings: usize,
    pub details: Vec<TreeValidation>,
}

/// The outcome of validating the workspace.
pub struct ValidateReport {
    pub data: ValidateData,
    /// No cycle in any tree that could be loaded.
    pub valid_dag: bool,
    /// Number of orphan warnings over all trees.
    pub orphan_nodes_count: usize,
    /// No error was found.
    pub success: bool,
}

/// An error has this code and detail and carries these context entries.
pub open spec fn error_is(e: OutputError, code: Seq<char>, detail: Seq<char>, ctx: Seq<(Seq<char>, ContextValueView)>) -> bool {
    &&& e.code@ == code
    &&& e.detail@ == detail
    &&& forall|k: int| 0 <= k < ctx.len() ==> crate::output::context_get(e.context@, (#[trigger] ctx[k]).0) == Some(ctx[k].1)
}

/// The cycle error of the trunk of a tree.
pub open spec fn trunk_cycle_error(e: OutputError, tree_id: Seq<char>) -> bool {
    error_is(e, "CIRCULAR_DEPENDENCY_DETECTED"@, "Cycle detected in tree '"@ + tree_id + "'"@,
        seq![("tree_id"@, ContextValueView::Str(tree_id))])
}

/// The cycle error of a negative branch.
pub open spec fn branch_cycle_error(e: OutputError, tree_id: Seq<char>, nbr_id: Seq<char>) -> bool {
    error_is(e, "CIRCULAR_DEPENDENCY_DETECTED"@, "Cycle detected in NBR '"@ + nbr_id + "' of tree '"@ + tree_id + "'"@,
        seq![("tree_id"@, ContextValueView::Str(tree_id)), ("nbr_id"@, ContextValueView::Str(nbr_id))])
}

/// The negative branches whose edges hold a cycle, in order.
pub open spec fn cyclic_branches(b: Seq<NbrBranch>) -> Seq<NbrBranch>
    decreases b.len(),
{
    if b.len() == 0 {
        Seq::empty()
    } else {
        cyclic_branches(b.drop_last()) + if acyclic(b.last().edges@) { Seq::empty() } else { seq![b.last()] }
    }
}

/// The cycle errors of a tree: one for its trunk when it has a cycle, then
/// one per cyclic branch.
pub open spec fn cycle_errors_are(errs: Seq<OutputError>, tree: Tree) -> bool {
    let t = if acyclic(tree.edges@) { 0int } else { 1int };
    let bs = cyclic_branches(tree.nbr_branches@);
    &&& errs.len() == t + bs.len()
    &&& t == 1 ==> trunk_cycle_error(errs[0], tree.id@)
    &&& forall|k: int| 0 <= k < bs.len() ==> branch_cycle_error(#[trigger] errs[t + k], tree.id@, bs[k].id@)
}

/// The referential-integrity errors of a tree.
pub open spec fn integrity_errors_are(errs: Seq<OutputError>, tree: Tree, pool: Seq<String>) -> bool {
    &&& errs.len() == missing_refs(tree.edges@, pool).len()
    &&& forall|k: int| 0 <= k < errs.len() ==> is_integrity_error(#[trigger] errs[k],
            missing_refs(tree.edges@, pool)[k].0, missing_refs(tree.edges@, pool)[k].1, tree.id@)
}

/// The EC-rule errors of a tree (none unless it is an EC).
pub open spec fn ec_errors_are(errs: Seq<OutputError>, tree: Tree) -> bool {
    if tree.tree_type == TreeType::Ec {
        &&& errs.len() == ec_findings(tree.nodes@, tree.edges@).len()
        &&& forall|k: int| 0 <= k < errs.len() ==> is_ec_error(#[trigger] errs[k], ec_findings(tree.nodes@, tree.edges@)[k], tree.id@)
    } else {
        errs.len() == 0
    }
}

/// The CLR#4 insufficiency warnings: one per insufficient node, no node twice.
pub open spec fn clr4_warnings_are(w: Seq<OutputWarning>, tree: Tree) -> bool {
    let edges = tree.edges@;
    &&& forall|t: int| 0 <= t < w.len() ==> insufficient(edges, warned_node(#[trigger] w[t]))
            && is_clr4_warning(w[t], warned_node(w[t]), incoming(edges, warned_node(w[t]))[0].id@)
    &&& forall|n: Seq<char>| insufficient(edges, n) ==> exists|t: int| 0 <= t < w.len() && #[trigger] warned_node(w[t]) == n
    &&& forall|a: int, b: int| 0 <= a < b < w.len() ==> warned_node(#[trigger] w[a]) != warned_node(#[trigger] w[b])
}

/// The CLR#4/#5 excessive-AND warnings.
pub open spec fn clr4_5_warnings_are(w: Seq<OutputWarning>, tree: Tree) -> bool {
    &&& w.len() == excessive_and(tree.edges@).len()
    &&& forall|t: int| 0 <= t < w.len() ==> is_clr4_5_warning(#[trigger] w[t], excessive_and(tree.edges@)[t])
}

/// The CLR#6 type-inversion warnings.
pub open spec fn clr6_warnings_are(w: Seq<OutputWarning>, tree: Tree, nodes: Seq<Node>) -> bool {
    &&& w.len() == inversions(tree.edges@, nodes).len()
    &&& forall|t: int| 0 <= t < w.len() ==> is_clr6_warning(#[trigger] w[t], inversions(tree.edges@, nodes)[t], nodes)
}

/// The CLR#7 intangible warnings.
pub open spec fn clr7_warnings_are(w: Seq<OutputWarning>, tree: Tree, nodes: Seq<Node>) -> bool {
    &&& w.len() == intangibles(tree.edges@, nodes).len()
    &&& forall|t: int| 0 <= t < w.len() ==> is_clr7_warning(#[trigger] w[t], intangibles(tree.edges@, nodes)[t].id@,
            outgoing_count(tree.edges@, intangibles(tree.edges@, nodes)[t].id@))
}

/// The orphan warnings of a tree.
pub open spec fn orphan_warnings_are(w: Seq<OutputWarning>, tree: Tree) -> bool {
    &&& w.len() == orphan_ids(tree.nodes@, tree.edges@).len()
    &&& forall|k: int| 0 <= k < w.len() ==> is_orphan_warning(#[trigger] w[k], orphan_ids(tree.nodes@, tree.edges@)[k], tree.id@)
}

/// The validation of one tree: its errors are the cycle errors, then the
/// integrity errors, then the EC-rule errors; its warnings the CLR#2,
/// CLR#4, CLR#4/#5, CLR#6 and CLR#7 lints, then the orphan warnings.
/// `nodes` are the tree's nodes that could be loaded.
pub open spec fn tree_validated(v: TreeValidation, tree: Tree, pool: Seq<String>, nodes: Seq<Node>) -> bool {
    &&& v.tree_id@ == tree.id@
    &&& exists|a: int, b: int| 0 <= a <= b <= v.errors@.len()
            && cycle_errors_are(v.errors@.subrange(0, a), tree)
            && integrity_errors_are(v.errors@.subrange(a, b), tree, pool)
            && ec_errors_are(v.errors@.subrange(b, v.errors@.len() as int), tree)
    &&& exists|c: int, d: int, e: int, f: int, g: int| 0 <= c <= d <= e <= f <= g <= v.warnings@.len()
            && clr2_result(nodes, v.warnings@.subrange(0, c))
            && clr4_warnings_are(v.warnings@.subrange(c, d), tree)
            && clr4_5_warnings_are(v.warnings@.subrange(d, e), tree)
            && clr6_warnings_are(v.warnings@.subrange(e, f), tree, nodes)
            && clr7_warnings_are(v.warnings@.subrange(f, g), tree, nodes)
            && orphan_warnings_are(v.warnings@.subrange(g, v.warnings@.len() as int), tree)
}

/// The tree has no cycle, in its trunk or in any branch.
pub open spec fn tree_acyclic(tree: Tree) -> bool {
    acyclic(tree.edges@) && forall|k: int| 0 <= k < tree.nbr_branches@.len() ==> acyclic((#[trigger] tree.nbr_branches@[k]).edges@)
}

fn cycle_errors(tree: &Tree) -> (r: (Vec<OutputError>, bool))
    ensures
        cycle_errors_are(r.0@, *tree),
        r.1 == tree_acyclic(*tree),
{
    proof {
        reveal_strlit("tree_id");
        reveal_strlit("nbr_id");
        assert("tree_id"@ != "nbr_id"@) by { assert("tree_id"@[0] != "nbr_id"@[0]); }
    }
    let mut errs: Vec<OutputError> = Vec::new();
    let mut ok = true;
    let trunk = check_dag(&tree.edges, tree.id.as_str()).is_ok();
    if !trunk {
        ok = false;
        let e = OutputError::new("CIRCULAR_DEPENDENCY_DETECTED", cat3("Cycle detected in tree '", tree.id.as_str(), "'"))
            .with_context("tree_id", ContextValue::Str(tree.id.clone()));
        errs.push(e);
    }
    let ghost t: int = if trunk { 0 } else { 1 };
    let bs = &tree.nbr_branches;
    let mut i: usize = 0;
    while i < bs.len()
        invariant
            i <= bs@.len(),
            bs@ == tree.nbr_branches@,
            t == (if acyclic(tree.edges@) { 0int } else { 1int }),
            errs@.len() == t + cyclic_branches(bs@.take(i as int)).len(),
            t == 1 ==> trunk_cycle_error(errs@[0], tree.id@),
            forall|k: int| 0 <= k < cyclic_branches(bs@.take(i as int)).len()
                ==> branch_cycle_error(#[trigger] errs@[t + k], tree.id@, cyclic_branches(bs@.take(i as int))[k].id@),
            ok == (acyclic(tree.edges@) && forall|k: int| 0 <= k < i ==> acyclic((#[trigger] bs@[k]).edges@)),
            "tree_id"@ != "nbr_id"@,
        decreases bs@.len() - i,
    {
        proof {
            let s = bs@.take(i + 1);
            assert(s.drop_last() =~= bs@.take(i as int));
            assert(s.last() == bs@[i as int]);
        }
        let nb = &bs[i];
        let ghost pre = errs@;
        if check_dag(&nb.edges, tree.id.as_str()).is_err() {
            ok = false;
            let e = OutputError::new("CIRCULAR_DEPENDENCY_DETECTED",
                cat5("Cycle detected in NBR '", nb.id.as_str(), "' of tree '", tree.id.as_str(), "'"))
                .with_context("tree_id", ContextValue::Str(tree.id.clone()))
                .with_context("nbr_id", ContextValue::Str(nb.id.clone()));
            errs.push(e);
            proof {
                let cb = cyclic_branches(bs@.take(i + 1));
                assert(cb == cyclic_branches(bs@.take(i as int)).push(*nb));
                assert forall|k: int| 0 <= k < cb.len() implies branch_cycle_error(#[trigger] errs@[t + k], tree.id@, cb[k].id@) by {
                    if k < cb.len() - 1 { assert(errs@[t + k] == pre[t + k]); }
                }
            }
        } else {
            proof { assert(cyclic_branches(bs@.take(i + 1)) =~= cyclic_branches(bs@.take(i as int))); }
        }
        proof {
            if t == 1 { assert(errs@[0] == pre[0]); }
        }
        i = i + 1;
    }
    proof { lemma_take_all(bs@); }
    (errs, ok)
}

fn append_errors(dst: &mut Vec<OutputError>, src: Vec<OutputError>)
    ensures final(dst)@ == old(dst)@ + src@,
{
    let mut s = src;
    dst.append(&mut s);
}

fn append_warnings(dst: &mut Vec<OutputWarning>, src: Vec<OutputWarning>)
    ensures final(dst)@ == old(dst)@ + src@,
{
    let mut s = src;
    dst.append(&mut s);
}

/// Validates one loaded tree against the node pool; `nodes` are the tree's
/// nodes that could be loaded. Also tells whether the tree is acyclic and
/// how many orphan warnings it got.
pub fn validate_tree(tree: &Tree, node_pool: &Vec<String>, nodes: &Vec<Node>) -> (r: (TreeValidation, bool, usize))
    ensures
        tree_validated(r.0, *tree, node_pool@, nodes@),
        r.1 == tree_acyclic(*tree),
        r.2 == orphan_ids(tree.nodes@, tree.edges@).len(),
{
    let (mut errors, ok) = cycle_errors(tree);
    let ghost cyc = errors@;
    let a = errors.len();
    let ie = integrity::check_integrity(&tree.edges, node_pool, tree.id.as_str());
    let ghost iev = ie@;
    append_errors(&mut errors, ie);
    let b = errors.len();
    let ghost mid = errors@;
    let mut ecv: Vec<OutputError> = Vec::new();
    if tree.tree_type == TreeType::Ec {
        ecv = ec::check_ec_rules(&tree.nodes, &tree.edges, tree.id.as_str());
    }
    let ghost ecs = ecv@;
    append_errors(&mut errors, ecv);
    let w2 = clr::lint_clr2(nodes);
    let ghost w2v = w2@;
    let mut warnings: Vec<OutputWarning> = w2;
    let c = warnings.len();
    let w4 = clr::lint_clr4_insufficiency(&tree.edges);
    let ghost w4v = w4@;
    append_warnings(&mut warnings, w4);
    let d = warnings.len();
    let w45 = clr::lint_clr4_5_excessive_and(&tree.edges);
    let ghost w45v = w45@;
    append_warnings(&mut warnings, w45);
    let e = warnings.len();
    let w6 = clr::lint_clr6_type_inversion(&tree.edges, nodes);
    let ghost w6v = w6@;
    append_warnings(&mut warnings, w6);
    let f = warnings.len();
    let w7 = clr::lint_clr7_intangible(&tree.edges, nodes);
    let ghost w7v = w7@;
    append_warnings(&mut warnings, w7);
    let g = warnings.len();
    let orphans = orphans::check_orphans(&tree.nodes, &tree.edges, tree.id.as_str());
    let ghost wov = orphans@;
    let n_orphans = orphans.len();
    append_warnings(&mut warnings, orphans);
    let v = TreeValidation { tree_id: tree.id.clone(), errors, warnings };
    proof {
        let es = v.errors@;
        let ws = v.warnings@;
        assert(es.subrange(0, a as int) =~= cyc);
        assert(es.subrange(a as int, b as int) =~= iev);
        assert(es.subrange(b as int, es.len() as int) =~= ecs);
        assert(ws.subrange(0, c as int) =~= w2v);
        assert(ws.subrange(c as int, d as int) =~= w4v);
        assert(ws.subrange(d as int, e as int) =~= w45v);
        assert(ws.subrange(e as int, f as int) =~= w6v);
        assert(ws.subrange(f as int, g as int) =~= w7v);
        assert(ws.subrange(g as int, ws.len() as int) =~= wov);
        assert(cycle_errors_are(es.subrange(0, a as int), *tree));
        assert(integrity_errors_are(es.subrange(a as int, b as int), *tree, node_pool@));
        assert(ec_errors_are(es.subrange(b as int, es.len() as int), *tree));
        assert(clr2_result(nodes@, ws.subrange(0, c as int)));
        assert(clr4_warnings_are(ws.subrange(c as int, d as int), *tree));
        assert(clr4_5_warnings_are(ws.subrange(d as int, e as int), *tree));
        assert(clr6_warnings_are(ws.subrange(e as int, f as int), *tree, nodes@));
        assert(clr7_warnings_are(ws.subrange(f as int, g as int), *tree, nodes@));
        assert(orphan_warnings_are(ws.subrange(g as int, ws.len() as int), *tree));
    }
    (v, ok, n_orphans)
}

/// The number of errors over the details.
pub open spec fn sum_errors(d: Seq<TreeValidation>) -> nat
    decreases d.len(),
{
    if d.len() == 0 { 0 } else { sum_errors(d.drop_last()) + d.last().errors@.len() }
}

/// The number of warnings over the details.
pub open spec fn sum_warnings(d: Seq<TreeValidation>) -> nat
    decreases d.len(),
{
    if d.len() == 0 { 0 } else { sum_warnings(d.drop_last()) + d.last().warnings@.len() }
}

/// A tree to validate: its ID and the tree with its loaded nodes, or the
/// error met loading it.
pub type TreeEntry = (String, Result<(Tree, Vec<Node>), LtpError>);

/// The number of orphan warnings over the loaded trees.
pub open spec fn sum_orphans(entries: Seq<TreeEntry>) -> nat
    decreases entries.len(),
{
    if entries.len() == 0 {
        0
    } else {
        sum_orphans(entries.drop_last()) + match entries.last().1 {
            Ok((t, _)) => orphan_ids(t.nodes@, t.edges@).len(),
            Err(_) => 0,
        }
    }
}

/// A tree entry that was loaded has no cycle.
pub open spec fn entry_acyclic(entry: TreeEntry) -> bool {
    match entry.1 {
        Ok((t, _)) => tree_acyclic(t),
        Err(_) => true,
    }
}

/// A count that stops at the largest `usize`.
pub open spec fn capped(n: nat) -> usize {
    if n > usize::MAX { usize::MAX } else { n as usize }
}

/// The detail reported for a tree entry.
pub open spec fn detail_for(v: TreeValidation, entry: TreeEntry, pool: Seq<String>) -> bool {
    match entry.1 {
        Ok((t, ns)) => tree_validated(v, t, pool, ns@),
        Err(e) => {
            &&& v.tree_id@ == entry.0@
            &&& v.errors@.len() == 1 && v.errors@[0].code@ == "TREE_LOAD_ERROR"@ && v.errors@[0].detail@ == ltp_message(e)
            &&& v.warnings@.len() == 0
        },
    }
}

/// Validates the trees, in order: a tree that could not be loaded gets a
/// `TREE_LOAD_ERROR`; a loaded one its structural errors and lint warnings.
/// The DAG is valid when no loaded tree has a cycle; the command succeeds
/// when no error was found.
pub fn validate_trees(entries: &Vec<TreeEntry>, node_pool: &Vec<String>) -> (r: ValidateReport)
    ensures
        r.data.details@.len() == entries@.len(),
        r.data.trees_validated == entries@.len(),
        forall|k: int| 0 <= k < entries@.len() ==> detail_for(#[trigger] r.data.details@[k], entries@[k], node_pool@),
        r.valid_dag == forall|k: int| 0 <= k < entries@.len() ==> entry_acyclic(#[trigger] entries@[k]),
        r.data.total_errors == capped(sum_errors(r.data.details@)),
        r.data.total_warnings == capped(sum_warnings(r.data.details@)),
        r.orphan_nodes_count == capped(sum_orphans(entries@)),
        r.success == (sum_errors(r.data.details@) == 0),
{
    let mut details: Vec<TreeValidation> = Vec::new();
    let mut valid_dag = true;
    let mut orphans: usize = 0;
    let mut total_errors: usize = 0;
    let mut total_warnings: usize = 0;
    let mut i: usize = 0;
    while i < entries.len()
        invariant
            i <= entries@.len(),
            details@.len() == i,
            forall|k: int| 0 <= k < i ==> detail_for(#[trigger] details@[k], entries@[k], node_pool@),
            valid_dag == forall|k: int| 0 <= k < i ==> entry_acyclic(#[trigger] entries@[k]),
            total_errors == capped(sum_errors(details@)),
            total_warnings == capped(sum_warnings(details@)),
            orphans == capped(sum_orphans(entries@.take(i as int))),
        decreases entries@.len() - i,
    {
        proof {
            let s = entries@.take(i + 1);
            assert(s.drop_last() =~= entries@.take(i as int));
            assert(s.last() == entries@[i as int]);
        }
        let entry = &entries[i];
        let v = match &entry.1 {
            Ok((t, ns)) => {
                let (v, ok, n) = validate_tree(t, node_pool, ns);
                if !ok {
                    valid_dag = false;
                }
                orphans = orphans.saturating_add(n);
                v
            },
            Err(e) => {
                let err = OutputError::new("TREE_LOAD_ERROR", e.message());
                let mut errs: Vec<OutputError> = Vec::new();
                errs.push(err);
                TreeValidation { tree_id: entry.0.clone(), errors: errs, warnings: Vec::new() }
            },
        };
        total_errors = total_errors.saturating_add(v.errors.len());
        total_warnings = total_warnings.saturating_add(v.warnings.len());
        let ghost pre = details@;
        details.push(v);
        proof {
            assert(details@.drop_last() =~= pre);
            assert forall|k: int| 0 <= k < i + 1 implies detail_for(#[trigger] details@[k], entries@[k], node_pool@) by {
                if k < i { assert(details@[k] == pre[k]); }
            }
        }
        i = i + 1;
    }
    proof { lemma_take_all(entries@); }
    let n = details.len();
    ValidateReport {
        data: ValidateData { trees_validated: n, total_errors, total_warnings, details },
        valid_dag,
        orphan_nodes_count: orphans,
        success: total_errors == 0,
    }
}

} // verus!
