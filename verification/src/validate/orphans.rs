//! Nodes attached to a tree but touched by none of its edges.
use vstd::prelude::*;
use crate::link::types::Edge;
use crate::output::{context_get, ContextValue, ContextValueView, OutputWarning};
use crate::strutil::{cat5, has_id, owned};
use crate::tree::types::NodeRef;

verus! {

/// `id` is a cause or the effect of some edge.
pub open spec fn connected(edges: Seq<Edge>, id: Seq<char>) -> bool {
    exists|i: int| #![trigger edges[i]] 0 <= i < edges.len() && (edges[i].to@ == id || has_id(edges[i].from@, id))
}

/// The attached node ids that no edge touches, in attachment order.
pub open spec fn orphan_ids(nodes: Seq<NodeRef>, edges: Seq<Edge>) -> Seq<Seq<char>>
    decreases nodes.len(),
{
    if nodes.len() == 0 {
        seq![]
    } else {
        orphan_ids(nodes.drop_last(), edges) + if !connected(edges, nodes.last().node_ref@) {
            seq![nodes.last().node_ref@]
        } else {
            seq![]
        }
    }
}

pub open spec fn is_orphan_warning(w: OutputWarning, node: Seq<char>, tree_id: Seq<char>) -> bool {
    &&& w.code@ == "ORPHAN_NODE_IN_TREE"@
    &&& w.detail@ == "Node '"@ + node + "' is attached to tree '"@ + tree_id + "' but has no edges"@
    &&& context_get(w.context@, "node_id"@) == Some(ContextValueView::Str(node))
    &&& context_get(w.context@, "tree_id"@) == Some(ContextValueView::Str(tree_id))
}

/// Whether some edge touches `id`.
pub fn is_connected(edges: &Vec<Edge>, id: &String) -> (r: bool)
    ensures r == connected(edges@, id@),
{
    let mut i: usize = 0;
    while i < edges.len()
        invariant
            i <= edges@.len(),
            forall|k: int| #![trigger edges@[k]] 0 <= k < i ==> !(edges@[k].to@ == id@ || has_id(edges@[k].from@, id@)),
        decreases edges@.len() - i,
    {
        if edges[i].to == *id {
            return true;
        }
        if crate::strutil::contains_string(&edges[i].from, id) {
            return true;
        }
        i = i + 1;
    }
    false
}

/// Detect nodes that are attached to a tree but have no edges (orphans
/// within the tree), in attachment order.
pub fn check_orphans(nodes: &Vec<NodeRef>, edges: &Vec<Edge>, tree_id: &str) -> (r: Vec<OutputWarning>)
    ensures
        r@.len() == orphan_ids(nodes@, edges@).len(),
        forall|k: int| 0 <= k < r@.len() ==> is_orphan_warning(#[trigger] r@[k], orphan_ids(nodes@, edges@)[k], tree_id@),
{
    let mut warnings: Vec<OutputWarning> = Vec::new();
    let mut i: usize = 0;
    while i < nodes.len()
        invariant
            i <= nodes@.len(),
            warnings@.len() == orphan_ids(nodes@.subrange(0, i as int), edges@).len(),
            forall|k: int| 0 <= k < warnings@.len() ==> is_orphan_warning(#[trigger] warnings@[k],
                orphan_ids(nodes@.subrange(0, i as int), edges@)[k], tree_id@),
        decreases nodes@.len() - i,
    {
        let ghost before = orphan_ids(nodes@.subrange(0, i as int), edges@);
        proof {
            let s = nodes@.subrange(0, i + 1);
            assert(s.drop_last() =~= nodes@.subrange(0, i as int));
            assert(s.last() == nodes@[i as int]);
        }
        let nr = &nodes[i];
        if !is_connected(edges, &nr.node_ref) {
            let detail = cat5("Node '", nr.node_ref.as_str(), "' is attached to tree '", tree_id, "' but has no edges");
            let w = OutputWarning::new("ORPHAN_NODE_IN_TREE", detail)
                .with_context("node_id", ContextValue::Str(nr.node_ref.clone()))
                .with_context("tree_id", ContextValue::Str(owned(tree_id)));
            proof {
                reveal_strlit("node_id");
                reveal_strlit("tree_id");
                assert("node_id"@[0] != "tree_id"@[0]);
            }
            warnings.push(w);
            proof {
                assert(orphan_ids(nodes@.subrange(0, i + 1), edges@) =~= before.push(nr.node_ref@));
            }
        } else {
            proof {
                assert(orphan_ids(nodes@.subrange(0, i + 1), edges@) =~= before);
            }
        }
        i = i + 1;
    }
    assert(nodes@.subrange(0, nodes@.len() as int) =~= nodes@);
    warnings
}

} // verus!
