//! Negative branch reservations on a tree: add, remove, list, inspect.
use vstd::prelude::*;
use crate::link::types::{edge_views, EdgeView};
use crate::output::{err_is, not_in_tree_detail, not_in_tree_error, quoted_detail, quoted_error, OutputError};
use crate::strutil::{cat3, lemma_has_id_concat, push_all, clone_opt_string, clone_strings, contains_string, has_id, insert_sorted_unique, owned, strictly_sorted, views};
use crate::trace::{operator_name, operator_str};
use crate::tree::types::{attached, is_attached, nbr_views, NbrBranch, NbrBranchView, Tree, TreeView};
use crate::workspace::counters::{minted, nth_id, Counters};

verus! {

/// Data returned by `nbr add`.
#[derive(Debug, Clone)]
pub struct NbrAddData {
    pub nbr_id: String,
    pub tree_id: String,
    pub source_node: String,
    pub trim_injection: Option<String>,
}

/// Data returned by `nbr rm`.
#[derive(Debug, Clone)]
pub struct NbrRmData {
    pub nbr_id: String,
    pub tree_id: String,
    pub edges_removed: usize,
}

/// Summary of a single negative branch for list output.
#[derive(Debug, Clone)]
pub struct NbrSummary {
    pub id: String,
    pub source_node: String,
    pub edge_count: usize,
    pub has_trim: bool,
}

/// Data returned by `nbr list`.
#[derive(Debug, Clone)]
pub struct NbrListData {
    pub tree_id: String,
    pub nbr_count: usize,
    pub branches: Vec<NbrSummary>,
}

/// Data returned by `nbr inspect`.
#[derive(Debug, Clone)]
pub struct NbrInspectData {
    pub nbr_id: String,
    pub tree_id: String,
    pub source_node: String,
    pub trim_injection: Option<String>,
    pub edge_count: usize,
    pub edges: Vec<NbrEdgeInfo>,
    pub nodes_involved: Vec<String>,
}

/// Edge info within a negative branch for inspect output.
#[derive(Debug, Clone)]
pub struct NbrEdgeInfo {
    pub id: String,
    pub from: Vec<String>,
    pub to: String,
    pub operator: String,
}

pub open spec fn opt_str(o: Option<&str>) -> Option<Seq<char>> {
    match o { Some(s) => Some(s@), None => None }
}

/// `nbr add`: an empty negative branch from `source_node` with the next
/// `NBR` ID, optionally trimmed by an injection. The source must be in the
/// pool and attached, the trim injection in the pool.
pub fn nbr_add(tree: &mut Tree, counters: &mut Counters, pool: &Vec<String>, source_node: &str, trim: Option<&str>)
    -> (r: Result<NbrAddData, OutputError>)
    requires
        old(counters).wf(),
        old(counters).room("NBR"@, 1),
    ensures
        final(counters).wf(),
        r is Err ==> *final(tree) == *old(tree) && final(counters).values@ == old(counters).values@,
        !has_id(pool@, source_node@) ==> err_is(r, "NODE_NOT_FOUND"@, quoted_detail("Node"@, source_node@, " not found in pool"@)),
        has_id(pool@, source_node@) && !attached(old(tree).nodes@, source_node@)
            ==> err_is(r, "NODE_NOT_IN_TREE"@, not_in_tree_detail(source_node@, old(tree).id@)),
        has_id(pool@, source_node@) && attached(old(tree).nodes@, source_node@) && (trim matches Some(t) && !has_id(pool@, t@))
            ==> err_is(r, "NODE_NOT_FOUND"@, quoted_detail("Trim injection node"@, opt_str(trim).unwrap(), " not found in pool"@)),
        has_id(pool@, source_node@) && attached(old(tree).nodes@, source_node@) && !(trim matches Some(t) && !has_id(pool@, t@))
            ==> (r matches Ok(d) && {
                let id = nth_id(old(counters).values@, "NBR"@, 1);
                &&& final(counters).values@ == minted(old(counters).values@, "NBR"@, 1)
                &&& final(tree)@ == (TreeView {
                        nbr_branches: old(tree)@.nbr_branches.push(NbrBranchView {
                            id, source_node: source_node@, edges: Seq::empty(), trim_injection: opt_str(trim),
                        }),
                        ..old(tree)@
                    })
                &&& d.nbr_id@ == id && d.tree_id@ == old(tree).id@ && d.source_node@ == source_node@
                &&& crate::link::types::opt_view(d.trim_injection) == opt_str(trim)
            }),
{
    let src = owned(source_node);
    if !contains_string(pool, &src) {
        return Err(quoted_error("NODE_NOT_FOUND", "Node", source_node, " not found in pool"));
    }
    if !is_attached(&tree.nodes, &src) {
        return Err(not_in_tree_error(source_node, tree.id.as_str()));
    }
    let trim_s: Option<String> = match trim { Some(t) => Some(owned(t)), None => None };
    match &trim_s {
        Some(t) => {
            if !contains_string(pool, t) {
                return Err(quoted_error("NODE_NOT_FOUND", "Trim injection node", t.as_str(), " not found in pool"));
            }
        },
        None => {},
    }
    let id = counters.mint("NBR");
    let ghost pre = tree.nbr_branches@;
    tree.nbr_branches.push(NbrBranch { id: id.clone(), source_node: src.clone(), edges: Vec::new(), trim_injection: clone_opt_string(&trim_s) });
    proof {
        assert(tree.nbr_branches@.last()@.edges =~= Seq::<EdgeView>::empty());
        assert(nbr_views(tree.nbr_branches@) =~= nbr_views(pre).push(tree.nbr_branches@.last()@));
    }
    Ok(NbrAddData { nbr_id: id, tree_id: tree.id.clone(), source_node: src, trim_injection: trim_s })
}

/// The IDs of the branches, in order.
pub open spec fn nbr_ids(v: Seq<NbrBranch>) -> Seq<Seq<char>> {
    v.map_values(|b: NbrBranch| b.id@)
}

fn find_nbr(v: &Vec<NbrBranch>, id: &str) -> (r: Option<usize>)
    ensures
        match r {
            Some(i) => crate::link::types::first_at(nbr_ids(v@), id@, i as int),
            None => !nbr_ids(v@).contains(id@),
        },
{
    let key = owned(id);
    let mut i: usize = 0;
    while i < v.len()
        invariant
            i <= v@.len(),
            key@ == id@,
            forall|k: int| 0 <= k < i ==> nbr_ids(v@)[k] != id@,
        decreases v@.len() - i,
    {
        if v[i].id == key {
            return Some(i);
        }
        i = i + 1;
    }
    proof {
        if nbr_ids(v@).contains(id@) {
            let k = choose|k: int| 0 <= k < nbr_ids(v@).len() && nbr_ids(v@)[k] == id@;
            assert(nbr_ids(v@)[k] != id@);
        }
    }
    None
}

/// `nbr rm`: removes the first branch `nbr_id` (its nodes stay in the
/// pool) and reports how many edges it had.
pub fn nbr_rm(tree: &mut Tree, nbr_id: &str) -> (r: Result<NbrRmData, OutputError>)
    ensures
        r is Err ==> *final(tree) == *old(tree),
        !nbr_ids(old(tree).nbr_branches@).contains(nbr_id@)
            ==> err_is(r, "NBR_NOT_FOUND"@, quoted_detail("NBR"@, nbr_id@, " not found in tree '"@ + old(tree).id@ + "'"@)),
        forall|i: int| crate::link::types::first_at(nbr_ids(old(tree).nbr_branches@), nbr_id@, i) ==> (r matches Ok(d) && {
            &&& final(tree)@ == (TreeView { nbr_branches: old(tree)@.nbr_branches.remove(i), ..old(tree)@ })
            &&& d.nbr_id@ == nbr_id@ && d.tree_id@ == old(tree).id@
            &&& d.edges_removed == old(tree)@.nbr_branches[i].edges.len()
        }),
{
    let i = match find_nbr(&tree.nbr_branches, nbr_id) {
        Some(i) => i,
        None => {
            return Err(quoted_error("NBR_NOT_FOUND", "NBR", nbr_id, cat3(" not found in tree '", tree.id.as_str(), "'").as_str()));
        },
    };
    let n = tree.nbr_branches[i].edges.len();
    let ghost pre = tree.nbr_branches@;
    tree.nbr_branches.remove(i);
    proof {
        assert(nbr_views(tree.nbr_branches@) =~= nbr_views(pre).remove(i as int));
        assert forall|j: int| crate::link::types::first_at(nbr_ids(pre), nbr_id@, j) implies j == i by {
            if j < i { assert(nbr_ids(pre)[j] != nbr_id@); }
            if i < j { assert(nbr_ids(pre)[i as int] != nbr_id@); }
        }
    }
    Ok(NbrRmData { nbr_id: owned(nbr_id), tree_id: tree.id.clone(), edges_removed: n })
}

/// `nbr list`: a summary of every branch, in order.
pub fn nbr_list(tree: &Tree) -> (r: NbrListData)
    ensures
        r.tree_id@ == tree.id@,
        r.nbr_count == r.branches@.len(),
        r.branches@.len() == tree.nbr_branches@.len(),
        forall|k: int| 0 <= k < r.branches@.len() ==> {
            let s = #[trigger] r.branches@[k];
            let b = tree@.nbr_branches[k];
            &&& s.id@ == b.id && s.source_node@ == b.source_node && s.edge_count == b.edges.len()
            &&& s.has_trim == b.trim_injection is Some
        },
{
    let mut out: Vec<NbrSummary> = Vec::new();
    let mut i: usize = 0;
    while i < tree.nbr_branches.len()
        invariant
            i <= tree.nbr_branches@.len(),
            out@.len() == i,
            forall|k: int| 0 <= k < i ==> {
                let s = #[trigger] out@[k];
                let b = tree@.nbr_branches[k];
                &&& s.id@ == b.id && s.source_node@ == b.source_node && s.edge_count == b.edges.len()
                &&& s.has_trim == b.trim_injection is Some
            },
        decreases tree.nbr_branches@.len() - i,
    {
        let b = &tree.nbr_branches[i];
        out.push(NbrSummary {
            id: b.id.clone(),
            source_node: b.source_node.clone(),
            edge_count: b.edges.len(),
            has_trim: b.trim_injection.is_some(),
        });
        i = i + 1;
    }
    let n = out.len();
    NbrListData { tree_id: tree.id.clone(), nbr_count: n, branches: out }
}

/// `x` is an end of one of the edges.
pub open spec fn is_end(edges: Seq<EdgeView>, x: Seq<char>) -> bool {
    exists|i: int| 0 <= i < edges.len() && #[trigger] end_of(edges[i], x)
}

/// `x` is a cause or the effect of the edge.
pub open spec fn end_of(e: EdgeView, x: Seq<char>) -> bool {
    e.from.contains(x) || e.to == x
}

/// `x` is an end of one of the first `n` edges.
pub open spec fn is_end_upto(edges: Seq<EdgeView>, n: int, x: Seq<char>) -> bool {
    exists|i: int| 0 <= i < n && #[trigger] end_of(edges[i], x)
}

/// `nbr inspect`: the first branch `nbr_id` with its edges and, sorted,
/// every node at an end of them.
pub fn nbr_inspect(tree: &Tree, nbr_id: &str) -> (r: Result<NbrInspectData, OutputError>)
    ensures
        !nbr_ids(tree.nbr_branches@).contains(nbr_id@)
            ==> err_is(r, "NBR_NOT_FOUND"@, quoted_detail("NBR"@, nbr_id@, " not found in tree '"@ + tree.id@ + "'"@)),
        forall|i: int| crate::link::types::first_at(nbr_ids(tree.nbr_branches@), nbr_id@, i) ==> (r matches Ok(d) && {
            let b = tree@.nbr_branches[i];
            &&& d.nbr_id@ == nbr_id@ && d.tree_id@ == tree.id@ && d.source_node@ == b.source_node
            &&& crate::link::types::opt_view(d.trim_injection) == b.trim_injection
            &&& d.edge_count == b.edges.len() && d.edges@.len() == b.edges.len()
            &&& forall|k: int| 0 <= k < b.edges.len() ==> {
                let e = #[trigger] d.edges@[k];
                e.id@ == b.edges[k].id && views(e.from@) == b.edges[k].from && e.to@ == b.edges[k].to
                    && e.operator@ == operator_name(b.edges[k].operator)
            }
            &&& strictly_sorted(d.nodes_involved@)
            &&& forall|x: Seq<char>| has_id(d.nodes_involved@, x) <==> is_end(b.edges, x)
        }),
{
    let i = match find_nbr(&tree.nbr_branches, nbr_id) {
        Some(i) => i,
        None => {
            return Err(quoted_error("NBR_NOT_FOUND", "NBR", nbr_id, cat3(" not found in tree '", tree.id.as_str(), "'").as_str()));
        },
    };
    proof {
        assert forall|j: int| crate::link::types::first_at(nbr_ids(tree.nbr_branches@), nbr_id@, j) implies j == i by {
            if j < i { assert(nbr_ids(tree.nbr_branches@)[j] != nbr_id@); }
            if i < j { assert(nbr_ids(tree.nbr_branches@)[i as int] != nbr_id@); }
        }
    }
    let b = &tree.nbr_branches[i];
    let ghost bv = b@;
    let mut edges: Vec<NbrEdgeInfo> = Vec::new();
    let mut flat: Vec<String> = Vec::new();
    let mut k: usize = 0;
    while k < b.edges.len()
        invariant
            k <= b.edges@.len(),
            bv == b@,
            edges@.len() == k,
            forall|q: int| 0 <= q < k ==> {
                let e = #[trigger] edges@[q];
                e.id@ == bv.edges[q].id && views(e.from@) == bv.edges[q].from && e.to@ == bv.edges[q].to
                    && e.operator@ == operator_name(bv.edges[q].operator)
            },
            forall|x: Seq<char>| has_id(flat@, x) <==> is_end_upto(bv.edges, k as int, x),
        decreases b.edges@.len() - k,
    {
        let e = &b.edges[k];
        edges.push(NbrEdgeInfo { id: e.id.clone(), from: clone_strings(&e.from), to: e.to.clone(), operator: owned(operator_str(e.operator)) });
        let mut ends = clone_strings(&e.from);
        ends.push(e.to.clone());
        let ghost before = flat@;
        push_all(&mut flat, &ends);
        proof {
            assert(bv.edges.len() == b.edges@.len());
            assert(bv.edges[k as int] == e@);
            assert(bv.edges.take(k + 1) =~= bv.edges.take(k as int).push(e@));
            assert forall|x: Seq<char>| has_id(flat@, x) <==> is_end_upto(bv.edges, k + 1, x) by {
                lemma_has_id_concat(before, ends@, x);
                crate::strutil::lemma_has_id_views(e.from@, x);
                assert(ends@ == e.from@.push(e.to));
                lemma_has_id_concat(e.from@, seq![e.to], x);
                assert(e.from@.push(e.to) =~= e.from@ + seq![e.to]);
                if is_end_upto(bv.edges, k + 1, x) {
                    let q = choose|q: int| 0 <= q < k + 1 && #[trigger] end_of(bv.edges[q], x);
                    if q < k {
                        assert(is_end_upto(bv.edges, k as int, x));
                    } else {
                        if x == e@.to { assert(seq![e.to][0]@ == x); }
                    }
                }
                if has_id(seq![e.to], x) {
                    assert(x == e@.to);
                    assert(end_of(bv.edges[k as int], x));
                }
                if has_id(e.from@, x) {
                    assert(end_of(bv.edges[k as int], x));
                }
                if is_end_upto(bv.edges, k as int, x) {
                    let q = choose|q: int| 0 <= q < k && #[trigger] end_of(bv.edges[q], x);
                    assert(end_of(bv.edges[q], x));
                }
            }
        }
        k = k + 1;
    }
    let nodes = crate::strutil::sorted_unique(&flat);
    proof {
        assert forall|x: Seq<char>| is_end_upto(bv.edges, bv.edges.len() as int, x) <==> is_end(bv.edges, x) by {
            if is_end(bv.edges, x) {
                let q = choose|q: int| 0 <= q < bv.edges.len() && #[trigger] end_of(bv.edges[q], x);
                assert(end_of(bv.edges[q], x));
            }
        }
    }
    Ok(NbrInspectData {
        nbr_id: owned(nbr_id),
        tree_id: tree.id.clone(),
        source_node: b.source_node.clone(),
        trim_injection: clone_opt_string(&b.trim_injection),
        edge_count: b.edges.len(),
        edges,
        nodes_involved: nodes,
    })
}

} // verus!
