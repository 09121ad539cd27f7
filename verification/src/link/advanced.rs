//! Structural link edits.
use vstd::prelude::*;
use crate::link::commands::with_edges;
use crate::link::types::{
    assumption_views, clone_edge, clone_edges, edge_ids, edge_views, find_edge, first_at, Assumption, AssumptionStatus,
    AssumptionView, Edge, EdgeView, Operator,
};
use crate::output::{err_is, quoted_detail, quoted_error, OutputError};
use crate::strutil::{cat3, owned, views};
use crate::tree::types::Tree;
use crate::validate::acyclic::{acyclic_v, lemma_acyclic_views};
use crate::validate::dag::check_dag;

verus! {

/// Data returned by `link reverse`.
#[derive(Debug, Clone)]
pub struct LinkReverseData {
    pub link_id: String,
    pub tree_id: String,
    pub new_from: Vec<String>,
    pub new_to: String,
}

/// Data returned by `link move`.
#[derive(Debug, Clone)]
pub struct LinkMoveData {
    pub link_id: String,
    pub tree_id: String,
}

/// Data returned by `link insert-between`.
#[derive(Debug, Clone)]
pub struct LinkInsertBetweenData {
    pub removed_link: String,
    pub created_links: Vec<String>,
    pub tree_id: String,
}

/// Data returned by `link group`.
#[derive(Debug, Clone)]
pub struct LinkGroupData {
    pub created_link: String,
    pub removed_links: Vec<String>,
    pub tree_id: String,
}

/// Data returned by `link dissolve`.
#[derive(Debug, Clone)]
pub struct LinkDissolveData {
    pub created_links: Vec<String>,
    pub removed_link: String,
    pub tree_id: String,
}

/// Data returned by `link split`.
#[derive(Debug, Clone)]
pub struct LinkSplitData {
    pub extracted_link: String,
    pub original_link: String,
    pub tree_id: String,
}

/// Data returned by `link reoperator`.
#[derive(Debug, Clone)]
pub struct LinkReoperatorData {
    pub link_id: String,
    pub old_operator: Operator,
    pub new_operator: Operator,
    pub tree_id: String,
}

/// Data returned by `link add-cause`.
#[derive(Debug, Clone)]
pub struct LinkAddCauseData {
    pub link_id: String,
    pub added_node: String,
    pub tree_id: String,
}

/// Data returned by `link rm-cause`.
#[derive(Debug, Clone)]
pub struct LinkRmCauseData {
    pub link_id: String,
    pub removed_node: String,
    pub new_operator: Operator,
    pub tree_id: String,
}

/// The assumption marked for review.
pub open spec fn review(a: AssumptionView) -> AssumptionView {
    AssumptionView { status: AssumptionStatus::NeedsReview, ..a }
}

/// A single-cause edge turned around: its effect becomes its cause and its
/// cause its effect; when forced, its assumptions are marked for review.
pub open spec fn reversed(e: EdgeView, force: bool) -> EdgeView {
    EdgeView {
        from: seq![e.to],
        to: e.from[0],
        assumptions: if force { e.assumptions.map_values(|a: AssumptionView| review(a)) } else { e.assumptions },
        ..e
    }
}

/// `link reverse`: turns a single-cause edge around. An edge with
/// assumptions needs `force` (they are then marked for review); an edge
/// with several causes cannot be reversed; a reversal that would close a
/// cycle is refused. Refusals leave the tree unchanged.
pub fn link_reverse(tree: &mut Tree, link_id: &str, force: bool) -> (r: Result<LinkReverseData, OutputError>)
    requires
        forall|i: int| first_at(edge_ids(old(tree).edges@), link_id@, i)
            && (old(tree).edges@[i].assumptions@.len() == 0 || force) && old(tree).edges@[i].from@.len() <= 1
            ==> old(tree).edges@[i].from@.len() == 1,
    ensures
        r is Err ==> *final(tree) == *old(tree),
        !edge_ids(old(tree).edges@).contains(link_id@)
            ==> err_is(r, "LINK_NOT_FOUND"@, quoted_detail("Edge"@, link_id@, " not found in tree '"@ + old(tree).id@ + "'"@)),
        forall|i: int| first_at(edge_ids(old(tree).edges@), link_id@, i) ==> {
            let e = old(tree)@.edges[i];
            let edges2 = old(tree)@.edges.update(i, reversed(e, force));
            &&& e.assumptions.len() > 0 && !force ==> err_is(r, "REVERSE_REQUIRES_FORCE"@,
                    "Edge has assumptions; use --force to reverse (assumptions will be marked needs_review)"@)
            &&& (e.assumptions.len() == 0 || force) && e.from.len() > 1 ==> err_is(r, "CANNOT_REVERSE_GROUP"@,
                    "Cannot reverse a grouped edge with multiple sources; dissolve first"@)
            &&& (e.assumptions.len() == 0 || force) && e.from.len() <= 1 && !acyclic_v(edges2)
                ==> err_is(r, "CIRCULAR_DEPENDENCY_DETECTED"@, "circular dependency detected in tree "@ + old(tree).id@)
            &&& (e.assumptions.len() == 0 || force) && e.from.len() <= 1 && acyclic_v(edges2) ==> (r matches Ok(d) && {
                &&& final(tree)@ == with_edges(old(tree)@, edges2)
                &&& d.link_id@ == link_id@ && d.tree_id@ == old(tree).id@
                &&& views(d.new_from@) == seq![e.to]
                &&& d.new_to@ == e.from[0]
            })
        },
{
    let idx = match find_edge(&tree.edges, link_id) {
        Some(i) => i,
        None => {
            return Err(quoted_error("LINK_NOT_FOUND", "Edge", link_id, cat3(" not found in tree '", tree.id.as_str(), "'").as_str()));
        },
    };
    if tree.edges[idx].assumptions.len() > 0 && !force {
        return Err(OutputError::new("REVERSE_REQUIRES_FORCE",
            owned("Edge has assumptions; use --force to reverse (assumptions will be marked needs_review)")));
    }
    if tree.edges[idx].from.len() > 1 {
        return Err(OutputError::new("CANNOT_REVERSE_GROUP",
            owned("Cannot reverse a grouped edge with multiple sources; dissolve first")));
    }
    let ghost olde = tree@.edges[idx as int];
    let mut e = clone_edge(&tree.edges[idx]);
    let old_to = tree.edges[idx].to.clone();
    let new_to = tree.edges[idx].from[0].clone();
    assert(new_to@ == olde.from[0]);
    let mut new_from: Vec<String> = Vec::new();
    new_from.push(old_to);
    e.from = new_from.clone();
    e.to = new_to.clone();
    if force {
        let mut asms: Vec<Assumption> = Vec::new();
        let mut k: usize = 0;
        while k < e.assumptions.len()
            invariant
                k <= e.assumptions@.len(),
                asms@.len() == k,
                forall|q: int| 0 <= q < k ==> (#[trigger] asms@[q])@ == review(e.assumptions@[q]@),
            decreases e.assumptions@.len() - k,
        {
            asms.push(Assumption { id: e.assumptions[k].id.clone(), status: AssumptionStatus::NeedsReview, text: e.assumptions[k].text.clone() });
            k = k + 1;
        }
        proof {
            assert(assumption_views(asms@) =~= assumption_views(e.assumptions@).map_values(|a: AssumptionView| review(a)));
        }
        e.assumptions = asms;
    }
    proof {
        assert(views(e.from@) =~= seq![olde.to]);
        assert(e@.from == reversed(olde, force).from);
        assert(e@.to == reversed(olde, force).to);
        assert(e@.assumptions == reversed(olde, force).assumptions);
        assert(e@ == reversed(olde, force));
    }
    let mut edges = clone_edges(&tree.edges);
    assert(edge_views(edges@).len() == edge_views(tree.edges@).len());
    assert(edges@.len() == tree.edges@.len());
    edges.set(idx, e);
    proof {
        assert(edge_views(edges@) =~= tree@.edges.update(idx as int, reversed(olde, force)));
        lemma_acyclic_views(edges@);
    }
    match check_dag(&edges, tree.id.as_str()) {
        Ok(()) => {},
        Err(err) => {
            return Err(OutputError::new("CIRCULAR_DEPENDENCY_DETECTED", err.message()));
        },
    }
    tree.edges = edges;
    Ok(LinkReverseData { link_id: owned(link_id), tree_id: tree.id.clone(), new_from, new_to })
}


/// Reversing an edge twice gives the tree back. Take an acyclic tree `t0`
/// whose first edge with ID `link_id` (at position `i`) has one cause and
/// no assumptions, and let `t1` be the tree that a successful
/// `link_reverse(t0, link_id, force)` leaves. Then a second
/// `link_reverse(t1, link_id, force)` finds the same edge, meets the
/// conditions under which it succeeds (one cause, no assumptions, the
/// result stays acyclic), and the tree it leaves is `t0` again.
pub proof fn law_reverse_twice_restores(t0: Tree, t1: Tree, link_id: Seq<char>, i: int, force: bool)
    requires
        first_at(edge_ids(t0.edges@), link_id, i),
        t0@.edges[i].from.len() == 1,
        t0@.edges[i].assumptions.len() == 0,
        acyclic_v(t0@.edges),
        t1@ == with_edges(t0@, t0@.edges.update(i, reversed(t0@.edges[i], force))),
    ensures
        first_at(edge_ids(t1.edges@), link_id, i),
        t1.edges@[i].from@.len() == 1,
        t1.edges@[i].assumptions@.len() == 0,
        acyclic_v(t1@.edges.update(i, reversed(t1@.edges[i], force))),
        with_edges(t1@, t1@.edges.update(i, reversed(t1@.edges[i], force))) == t0@,
{
    let e = t0@.edges[i];
    let e1 = reversed(e, force);
    assert(t0.edges@[i]@ == e);
    assert(e.assumptions.map_values(|a: AssumptionView| review(a)) =~= e.assumptions);
    assert(e1.assumptions == e.assumptions);
    assert(t1@.edges == t0@.edges.update(i, e1));
    assert(t1@.edges.len() == t1.edges@.len());
    assert(t1.edges@[i]@ == e1);
    assert(e1.from =~= seq![e.to]);
    assert(e.from =~= seq![e.from[0]]);
    let e2 = reversed(e1, force);
    assert(e1.assumptions.map_values(|a: AssumptionView| review(a)) =~= e1.assumptions);
    assert(e2 == e);
    assert forall|k: int| 0 <= k < t1.edges@.len() implies #[trigger] edge_ids(t1.edges@)[k] == edge_ids(t0.edges@)[k] by {
        assert(t1.edges@[k]@ == t1@.edges[k]);
        assert(t0.edges@[k]@ == t0@.edges[k]);
    }
    assert(t1@.edges.update(i, e2) =~= t0@.edges);
    assert(views(t1.edges@[i].from@).len() == t1.edges@[i].from@.len());
    assert(assumption_views(t1.edges@[i].assumptions@).len() == t1.edges@[i].assumptions@.len());
}

} // verus!
