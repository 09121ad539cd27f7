//! Acyclicity stated on edge values.
use vstd::prelude::*;
use crate::link::types::{edge_views, Edge, EdgeView};
use crate::validate::dag::{acyclic, has_edge, is_cycle, is_walk};

verus! {

/// `a` is a cause of `b` through some edge, on edge values.
pub open spec fn has_edge_v(edges: Seq<EdgeView>, a: Seq<char>, b: Seq<char>) -> bool {
    exists|i: int, j: int|
        0 <= i < edges.len() && 0 <= j < edges[i].from.len()
        && #[trigger] edges[i].from[j] == a && edges[i].to == b
}

pub open spec fn is_walk_v(edges: Seq<EdgeView>, p: Seq<Seq<char>>) -> bool {
    forall|k: int| 0 <= k < p.len() - 1 ==> has_edge_v(edges, #[trigger] p[k], p[k + 1])
}

/// The edge values form a directed acyclic graph.
pub open spec fn acyclic_v(edges: Seq<EdgeView>) -> bool {
    forall|p: Seq<Seq<char>>| p.len() >= 2 && p[0] == p[p.len() - 1] ==> !is_walk_v(edges, p)
}

/// Acyclicity depends on the edges' values alone.
pub proof fn lemma_acyclic_views(edges: Seq<Edge>)
    ensures acyclic(edges) <==> acyclic_v(edge_views(edges)),
{
    let ev = edge_views(edges);
    assert forall|a: Seq<char>, b: Seq<char>| has_edge(edges, a, b) <==> has_edge_v(ev, a, b) by {
        if has_edge(edges, a, b) {
            let (i, j) = choose|i: int, j: int| 0 <= i < edges.len() && 0 <= j < edges[i].from@.len()
                && #[trigger] edges[i].from@[j]@ == a && edges[i].to@ == b;
            assert(ev[i].from[j] == a);
        }
        if has_edge_v(ev, a, b) {
            let (i, j) = choose|i: int, j: int| 0 <= i < ev.len() && 0 <= j < ev[i].from.len()
                && #[trigger] ev[i].from[j] == a && ev[i].to == b;
            assert(edges[i].from@[j]@ == a);
        }
    }
    assert forall|p: Seq<Seq<char>>| is_walk(edges, p) <==> is_walk_v(ev, p) by {
        if is_walk(edges, p) {
            assert forall|k: int| 0 <= k < p.len() - 1 implies has_edge_v(ev, #[trigger] p[k], p[k + 1]) by {
                assert(has_edge(edges, p[k], p[k + 1]));
            }
        }
        if is_walk_v(ev, p) {
            assert forall|k: int| 0 <= k < p.len() - 1 implies has_edge(edges, #[trigger] p[k], p[k + 1]) by {
                assert(has_edge_v(ev, p[k], p[k + 1]));
            }
        }
    }
    if acyclic(edges) {
        assert forall|p: Seq<Seq<char>>| p.len() >= 2 && p[0] == p[p.len() - 1] implies !is_walk_v(ev, p) by {
            assert(!is_cycle(edges, p));
        }
    }
    if acyclic_v(ev) {
        assert forall|p: Seq<Seq<char>>| !is_cycle(edges, p) by {
            if is_cycle(edges, p) {
                assert(is_walk_v(ev, p));
            }
        }
    }
}

} // verus!

verus! {

/// `b` can be reached from `a` along edge values (every node reaches itself).
pub open spec fn reaches_v(edges: Seq<EdgeView>, a: Seq<char>, b: Seq<char>) -> bool {
    exists|p: Seq<Seq<char>>| #[trigger] is_walk_v(edges, p) && p.len() >= 1 && p[0] == a && p[p.len() - 1] == b
}

/// A walk extended by one more edge at its end.
pub proof fn lemma_walk_v_push(edges: Seq<EdgeView>, p: Seq<Seq<char>>, b: Seq<char>)
    requires is_walk_v(edges, p), p.len() >= 1, has_edge_v(edges, p[p.len() - 1], b),
    ensures is_walk_v(edges, p.push(b)),
{
    let q = p.push(b);
    assert forall|k: int| 0 <= k < q.len() - 1 implies has_edge_v(edges, #[trigger] q[k], q[k + 1]) by {
        if k < p.len() - 1 {
            assert(q[k] == p[k] && q[k + 1] == p[k + 1]);
        }
    }
}

/// A walk extended by one more edge at its start.
pub proof fn lemma_walk_v_prepend(edges: Seq<EdgeView>, a: Seq<char>, p: Seq<Seq<char>>)
    requires is_walk_v(edges, p), p.len() >= 1, has_edge_v(edges, a, p[0]),
    ensures is_walk_v(edges, seq![a] + p),
{
    let q = seq![a] + p;
    assert forall|k: int| 0 <= k < q.len() - 1 implies has_edge_v(edges, #[trigger] q[k], q[k + 1]) by {
        if k > 0 {
            assert(q[k] == p[k - 1] && q[k + 1] == p[k]);
        }
    }
}

/// A set closed under the edges forward holds every node reachable from
/// a node it holds.
pub proof fn lemma_fwd_closed_complete(edges: Seq<EdgeView>, s: Set<Seq<char>>, p: Seq<Seq<char>>, k: int)
    requires
        forall|a: Seq<char>, b: Seq<char>| s.contains(a) && has_edge_v(edges, a, b) ==> s.contains(b),
        is_walk_v(edges, p),
        p.len() >= 1,
        s.contains(p[0]),
        0 <= k < p.len(),
    ensures s.contains(p[k]),
    decreases k,
{
    if k > 0 {
        lemma_fwd_closed_complete(edges, s, p, k - 1);
        assert(has_edge_v(edges, p[k - 1], p[k]));
    }
}

/// A set closed under the edges backward holds every node from which a
/// node it holds is reachable.
pub proof fn lemma_bwd_closed_complete(edges: Seq<EdgeView>, s: Set<Seq<char>>, p: Seq<Seq<char>>, k: int)
    requires
        forall|a: Seq<char>, b: Seq<char>| s.contains(b) && has_edge_v(edges, a, b) ==> s.contains(a),
        is_walk_v(edges, p),
        p.len() >= 1,
        s.contains(p[p.len() - 1]),
        0 <= k < p.len(),
    ensures s.contains(p[k]),
    decreases p.len() - k,
{
    if k < p.len() - 1 {
        lemma_bwd_closed_complete(edges, s, p, k + 1);
        assert(has_edge_v(edges, p[k], p[k + 1]));
    }
}

} // verus!
