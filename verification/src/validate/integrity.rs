//! Referential integrity of a tree's edges against the node pool.
use vstd::prelude::*;
use crate::link::types::Edge;
use crate::output::{context_get, ContextValue, ContextValueView, OutputError};
use crate::strutil::{cat5, contains_string, has_id};

verus! {

/// The `(node, edge)` references of one edge whose node is not in the pool:
/// its causes in order, then its effect.
pub open spec fn missing_in_edge(e: Edge, pool: Seq<String>, j: int) -> Seq<(Seq<char>, Seq<char>)>
    decreases j,
{
    if j <= 0 {
        seq![]
    } else {
        missing_in_edge(e, pool, j - 1) + if !has_id(pool, e.from@[j - 1]@) {
            seq![(e.from@[j - 1]@, e.id@)]
        } else {
            seq![]
        }
    }
}

pub open spec fn missing_of_edge(e: Edge, pool: Seq<String>) -> Seq<(Seq<char>, Seq<char>)> {
    missing_in_edge(e, pool, e.from@.len() as int) + if !has_id(pool, e.to@) {
        seq![(e.to@, e.id@)]
    } else {
        seq![]
    }
}

/// All dangling `(node, edge)` references, edge by edge.
pub open spec fn missing_refs(edges: Seq<Edge>, pool: Seq<String>) -> Seq<(Seq<char>, Seq<char>)>
    decreases edges.len(),
{
    if edges.len() == 0 {
        seq![]
    } else {
        missing_refs(edges.drop_last(), pool) + missing_of_edge(edges.last(), pool)
    }
}

pub open spec fn integrity_detail(node: Seq<char>, edge: Seq<char>) -> Seq<char> {
    "Node '"@ + node + "' referenced in edge '"@ + edge + "' does not exist in pool"@
}

/// The error reported for one dangling reference.
pub open spec fn is_integrity_error(err: OutputError, node: Seq<char>, edge: Seq<char>, tree_id: Seq<char>) -> bool {
    &&& err.code@ == "REFERENTIAL_INTEGRITY_VIOLATION"@
    &&& err.detail@ == integrity_detail(node, edge)
    &&& context_get(err.context@, "node_id"@) == Some(ContextValueView::Str(node))
    &&& context_get(err.context@, "edge_id"@) == Some(ContextValueView::Str(edge))
    &&& context_get(err.context@, "tree_id"@) == Some(ContextValueView::Str(tree_id))
}

fn integrity_error(node: &String, edge: &String, tree_id: &str) -> (r: OutputError)
    ensures is_integrity_error(r, node@, edge@, tree_id@),
{
    let detail = cat5("Node '", node.as_str(), "' referenced in edge '", edge.as_str(), "' does not exist in pool");
    let e = OutputError::new("REFERENTIAL_INTEGRITY_VIOLATION", detail);
    let e = e.with_context("node_id", ContextValue::Str(node.clone()));
    let e = e.with_context("edge_id", ContextValue::Str(edge.clone()));
    let e = e.with_context("tree_id", ContextValue::Str(crate::strutil::owned(tree_id)));
    proof {
        reveal_strlit("node_id");
        reveal_strlit("edge_id");
        reveal_strlit("tree_id");
        assert("node_id"@[0] != "edge_id"@[0]);
        assert("node_id"@[0] != "tree_id"@[0]);
        assert("edge_id"@[0] != "tree_id"@[0]);
    }
    e
}

/// Check referential integrity: every node referenced in edges must exist in
/// the global pool. One error per dangling reference, edge by edge, causes
/// before effect.
pub fn check_integrity(edges: &Vec<Edge>, node_pool: &Vec<String>, tree_id: &str) -> (r: Vec<OutputError>)
    ensures
        r@.len() == missing_refs(edges@, node_pool@).len(),
        forall|k: int| 0 <= k < r@.len() ==> is_integrity_error(#[trigger] r@[k],
            missing_refs(edges@, node_pool@)[k].0, missing_refs(edges@, node_pool@)[k].1, tree_id@),
{
    let mut errors: Vec<OutputError> = Vec::new();
    let mut i: usize = 0;
    while i < edges.len()
        invariant
            i <= edges@.len(),
            errors@.len() == missing_refs(edges@.subrange(0, i as int), node_pool@).len(),
            forall|k: int| 0 <= k < errors@.len() ==> is_integrity_error(#[trigger] errors@[k],
                missing_refs(edges@.subrange(0, i as int), node_pool@)[k].0,
                missing_refs(edges@.subrange(0, i as int), node_pool@)[k].1, tree_id@),
        decreases edges@.len() - i,
    {
        let e = &edges[i];
        let ghost base = missing_refs(edges@.subrange(0, i as int), node_pool@);
        let mut j: usize = 0;
        while j < e.from.len()
            invariant
                i < edges@.len(),
                *e == edges@[i as int],
                j <= e.from@.len(),
                errors@.len() == base.len() + missing_in_edge(*e, node_pool@, j as int).len(),
                forall|k: int| 0 <= k < errors@.len() ==> is_integrity_error(#[trigger] errors@[k],
                    (base + missing_in_edge(*e, node_pool@, j as int))[k].0,
                    (base + missing_in_edge(*e, node_pool@, j as int))[k].1, tree_id@),
            decreases e.from@.len() - j,
        {
            let ghost before = base + missing_in_edge(*e, node_pool@, j as int);
            if !contains_string(node_pool, &e.from[j]) {
                errors.push(integrity_error(&e.from[j], &e.id, tree_id));
                proof {
                    let after = base + missing_in_edge(*e, node_pool@, j + 1);
                    assert(after =~= before.push((e.from@[j as int]@, e.id@)));
                }
            } else {
                proof {
                    let after = base + missing_in_edge(*e, node_pool@, j + 1);
                    assert(after =~= before);
                }
            }
            j = j + 1;
        }
        let ghost before = base + missing_in_edge(*e, node_pool@, e.from@.len() as int);
        if !contains_string(node_pool, &e.to) {
            errors.push(integrity_error(&e.to, &e.id, tree_id));
            proof {
                assert(before.push((e.to@, e.id@)) =~= base + missing_of_edge(*e, node_pool@));
            }
        } else {
            proof {
                assert(before =~= base + missing_of_edge(*e, node_pool@));
            }
        }
        proof {
            let s = edges@.subrange(0, i + 1);
            assert(s.drop_last() =~= edges@.subrange(0, i as int));
            assert(s.last() == edges@[i as int]);
        }
        i = i + 1;
    }
    assert(edges@.subrange(0, edges@.len() as int) =~= edges@);
    errors
}

} // verus!
