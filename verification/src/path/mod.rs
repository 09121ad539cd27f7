//! Path operations: collapse a chain into a long arrow, explode an
//! assumption into a node, replace a long arrow's chain by one node.
pub mod reach;

use vstd::prelude::*;
use crate::link::types::{clone_edge, edge_ids, edge_views, find_edge, first_at, plain_edge, Edge, EdgeStatus, EdgeView, Logic, Operator};
use crate::node::types::{new_node, EpistemicStatus, Node, NodeStatus, NodeType, NodeView};
use crate::output::{err_is, not_in_tree_detail, not_in_tree_error, quoted_detail, quoted_error, OutputError};
use crate::path::reach::{downstream_set, reaches, upstream_set};
use crate::strutil::{
    cat3, cat5, clone_strings, contains_string, has_id, insert_sorted_unique, owned, strictly_sorted, view_set, views,
};
use crate::tree::types::{
    attached, is_attached, macro_views, noderef_views, reshaped, MacroEdge, MacroEdgeView, NodeRef, NodeRefView, Tree, TreeView,
};
use crate::workspace::counters::{count_of, lemma_mint_chain, lemma_mint_other, minted, nth_id, Counters};

verus! {

/// Result of collapsing a chain into a long arrow.
#[derive(Debug, Clone)]
pub struct CollapseData {
    pub macro_edge_id: String,
    pub from: String,
    pub to: String,
    pub label: String,
    pub interior_nodes: Vec<String>,
    pub interior_links: Vec<String>,
}

/// `x` lies on some directed path from `from` to `to`.
pub open spec fn on_path(edges: Seq<Edge>, from: Seq<char>, to: Seq<char>, x: Seq<char>) -> bool {
    reaches(edges, from, x) && reaches(edges, x, to)
}

/// The nodes strictly between `from` and `to` on their directed paths.
pub open spec fn interior_node_set(edges: Seq<Edge>, from: Seq<char>, to: Seq<char>) -> Set<Seq<char>> {
    Set::new(|x: Seq<char>| on_path(edges, from, to, x) && x != from && x != to)
}

/// Every end of the edge lies on a path from `from` to `to`.
pub open spec fn within_path(edges: Seq<Edge>, from: Seq<char>, to: Seq<char>, e: Edge) -> bool {
    &&& forall|j: int| 0 <= j < e.from@.len() ==> on_path(edges, from, to, #[trigger] e.from@[j]@)
    &&& on_path(edges, from, to, e.to@)
}

/// IDs, in order, of the edges of `scan` that lie within the paths.
pub open spec fn interior_link_ids(edges: Seq<Edge>, scan: Seq<Edge>, from: Seq<char>, to: Seq<char>) -> Seq<Seq<char>>
    decreases scan.len(),
{
    if scan.len() == 0 {
        Seq::empty()
    } else {
        let r = interior_link_ids(edges, scan.drop_last(), from, to);
        if within_path(edges, from, to, scan.last()) { r.push(scan.last().id@) } else { r }
    }
}

/// `id` is an interior link of one of the long arrows.
pub open spec fn in_some_macro(macros: Seq<MacroEdge>, id: Seq<char>) -> bool {
    exists|m: int, k: int| 0 <= m < macros.len() && 0 <= k < macros[m].interior_links@.len()
        && #[trigger] macros[m].interior_links@[k]@ == id
}

/// Collapsing would nest a long arrow inside another.
pub open spec fn collapse_nested(t: Tree, from: Seq<char>, to: Seq<char>) -> bool {
    let ids = interior_link_ids(t.edges@, t.edges@, from, to);
    exists|i: int| 0 <= i < ids.len() && in_some_macro(t.macro_edges@, #[trigger] ids[i])
}

/// The tree with one more long arrow.
pub open spec fn with_macro(t: TreeView, m: MacroEdgeView) -> TreeView {
    TreeView {
        id: t.id,
        name: t.name,
        tree_type: t.tree_type,
        logic: t.logic,
        nodes: t.nodes,
        edges: t.edges,
        macro_edges: t.macro_edges.push(m),
        feedback_edges: t.feedback_edges,
        nbr_branches: t.nbr_branches,
    }
}

/// Every string of `v` occurs in `s`.
fn all_in(v: &Vec<String>, s: &Vec<String>) -> (r: bool)
    ensures r == forall|j: int| 0 <= j < v@.len() ==> has_id(s@, #[trigger] v@[j]@),
{
    let mut j: usize = 0;
    while j < v.len()
        invariant
            j <= v@.len(),
            forall|q: int| 0 <= q < j ==> has_id(s@, #[trigger] v@[q]@),
        decreases v@.len() - j,
    {
        if !contains_string(s, &v[j]) {
            return false;
        }
        j = j + 1;
    }
    true
}

/// Whether `id` is an interior link of one of the long arrows.
fn in_macros(macros: &Vec<MacroEdge>, id: &String) -> (r: bool)
    ensures r == in_some_macro(macros@, id@),
{
    let mut m: usize = 0;
    while m < macros.len()
        invariant
            m <= macros@.len(),
            forall|a: int, k: int| 0 <= a < m && 0 <= k < macros@[a].interior_links@.len()
                ==> #[trigger] macros@[a].interior_links@[k]@ != id@,
        decreases macros@.len() - m,
    {
        if contains_string(&macros[m].interior_links, id) {
            return true;
        }
        proof {
            assert forall|a: int, k: int| 0 <= a < m + 1 && 0 <= k < macros@[a].interior_links@.len()
                implies #[trigger] macros@[a].interior_links@[k]@ != id@ by {
                if a == m {
                    assert(!has_id(macros@[m as int].interior_links@, id@));
                }
            }
        }
        m = m + 1;
    }
    false
}

/// Collapse the sub-graph between `from` and `to` into a long arrow
/// labelled `label`: its interior nodes are those strictly between the two
/// on directed paths (sorted), its interior links the edges lying wholly on
/// such paths (in tree order). Refused when an end is not attached, when
/// no directed path joins them, or when an interior link already belongs
/// to a long arrow; a refusal leaves tree and counters unchanged.
pub fn path_collapse(tree: &mut Tree, counters: &mut Counters, from: &str, to: &str, label: &str) -> (r: Result<CollapseData, OutputError>)
    requires
        old(counters).wf(),
        old(counters).room("MACRO"@, 1),
    ensures
        final(counters).wf(),
        r is Err ==> *final(tree) == *old(tree) && final(counters).values@ == old(counters).values@,
        !attached(old(tree).nodes@, from@) ==> err_is(r, "NODE_NOT_IN_TREE"@, not_in_tree_detail(from@, old(tree).id@)),
        attached(old(tree).nodes@, from@) && !attached(old(tree).nodes@, to@)
            ==> err_is(r, "NODE_NOT_IN_TREE"@, not_in_tree_detail(to@, old(tree).id@)),
        attached(old(tree).nodes@, from@) && attached(old(tree).nodes@, to@)
            && !reaches(old(tree).edges@, from@, to@)
            ==> err_is(r, "NO_DIRECTED_PATH"@, "No directed path from '"@ + from@ + "' to '"@ + to@ + "'"@),
        attached(old(tree).nodes@, from@) && attached(old(tree).nodes@, to@)
            && reaches(old(tree).edges@, from@, to@) && collapse_nested(*old(tree), from@, to@)
            ==> err_is(r, "NESTED_MACRO_NOT_ALLOWED"@, "Sub-graph already contains a macro_edge"@),
        attached(old(tree).nodes@, from@) && attached(old(tree).nodes@, to@)
            && reaches(old(tree).edges@, from@, to@) && !collapse_nested(*old(tree), from@, to@)
            ==> (r matches Ok(d) && {
                let id = nth_id(old(counters).values@, "MACRO"@, 1);
                &&& d.macro_edge_id@ == id
                &&& d.from@ == from@ && d.to@ == to@ && d.label@ == label@
                &&& strictly_sorted(d.interior_nodes@)
                &&& view_set(d.interior_nodes@) == interior_node_set(old(tree).edges@, from@, to@)
                &&& views(d.interior_links@) == interior_link_ids(old(tree).edges@, old(tree).edges@, from@, to@)
                &&& final(counters).values@ == minted(old(counters).values@, "MACRO"@, 1)
                &&& final(tree)@ == with_macro(old(tree)@, MacroEdgeView {
                        id,
                        from: from@,
                        to: to@,
                        label: label@,
                        interior_nodes: views(d.interior_nodes@),
                        interior_links: views(d.interior_links@),
                        status: "active"@,
                        assumptions: Seq::empty(),
                    })
            }),
{
    let from_s = owned(from);
    let to_s = owned(to);
    if !is_attached(&tree.nodes, &from_s) {
        return Err(not_in_tree_error(from, tree.id.as_str()));
    }
    if !is_attached(&tree.nodes, &to_s) {
        return Err(not_in_tree_error(to, tree.id.as_str()));
    }
    let fwd = downstream_set(&tree.edges, &from_s);
    if !contains_string(&fwd, &to_s) {
        return Err(OutputError::new("NO_DIRECTED_PATH", cat5("No directed path from '", from, "' to '", to, "'")));
    }
    let bwd = upstream_set(&tree.edges, &to_s);
    // Nodes on a path, sorted, without the two ends.
    let mut interior_nodes: Vec<String> = Vec::new();
    let mut i: usize = 0;
    while i < fwd.len()
        invariant
            i <= fwd@.len(),
            strictly_sorted(interior_nodes@),
            forall|x: Seq<char>| has_id(fwd@, x) <==> reaches(tree.edges@, from@, x),
            forall|x: Seq<char>| has_id(bwd@, x) <==> reaches(tree.edges@, x, to@),
            from_s@ == from@, to_s@ == to@,
            forall|y: Seq<char>| has_id(interior_nodes@, y) <==>
                (exists|k: int| 0 <= k < i && #[trigger] fwd@[k]@ == y) && has_id(bwd@, y) && y != from@ && y != to@,
        decreases fwd@.len() - i,
    {
        let x = &fwd[i];
        if contains_string(&bwd, x) && *x != from_s && *x != to_s {
            insert_sorted_unique(&mut interior_nodes, x.clone());
        }
        proof {
            assert forall|y: Seq<char>| has_id(interior_nodes@, y) <==>
                (exists|k: int| 0 <= k < i + 1 && #[trigger] fwd@[k]@ == y) && has_id(bwd@, y) && y != from@ && y != to@ by {
                if exists|k: int| 0 <= k < i + 1 && #[trigger] fwd@[k]@ == y {
                    let k = choose|k: int| 0 <= k < i + 1 && #[trigger] fwd@[k]@ == y;
                    if k < i {
                        assert(exists|k2: int| 0 <= k2 < i && #[trigger] fwd@[k2]@ == y);
                    }
                }
            }
        }
        i = i + 1;
    }
    proof {
        assert(view_set(interior_nodes@) =~= interior_node_set(tree.edges@, from@, to@)) by {
            assert forall|y: Seq<char>| view_set(interior_nodes@).contains(y) <==> interior_node_set(tree.edges@, from@, to@).contains(y) by {
                if has_id(fwd@, y) {
                    let k = choose|k: int| 0 <= k < fwd@.len() && #[trigger] fwd@[k]@ == y;
                    assert(exists|k2: int| 0 <= k2 < fwd@.len() && #[trigger] fwd@[k2]@ == y);
                }
            }
        }
    }
    // Edges lying wholly on such paths.
    let mut interior_links: Vec<String> = Vec::new();
    let mut j: usize = 0;
    while j < tree.edges.len()
        invariant
            j <= tree.edges@.len(),
            forall|x: Seq<char>| has_id(fwd@, x) <==> reaches(tree.edges@, from@, x),
            forall|x: Seq<char>| has_id(bwd@, x) <==> reaches(tree.edges@, x, to@),
            views(interior_links@) == interior_link_ids(tree.edges@, tree.edges@.take(j as int), from@, to@),
        decreases tree.edges@.len() - j,
    {
        let e = &tree.edges[j];
        let f1 = all_in(&e.from, &fwd);
        let f2 = all_in(&e.from, &bwd);
        let t1 = contains_string(&fwd, &e.to);
        let t2 = contains_string(&bwd, &e.to);
        let inside = f1 && f2 && t1 && t2;
        proof {
            assert(tree.edges@.take(j + 1).drop_last() =~= tree.edges@.take(j as int));
            assert(tree.edges@.take(j + 1).last() == *e);
            if within_path(tree.edges@, from@, to@, *e) {
                assert forall|q: int| 0 <= q < e.from@.len() implies has_id(fwd@, #[trigger] e.from@[q]@) && has_id(bwd@, e.from@[q]@) by {
                    assert(on_path(tree.edges@, from@, to@, e.from@[q]@));
                }
            }
            assert(inside == within_path(tree.edges@, from@, to@, *e));
        }
        let ghost pre = interior_links@;
        if inside {
            interior_links.push(e.id.clone());
            proof { assert(views(interior_links@) =~= views(pre).push(e.id@)); }
        }
        j = j + 1;
    }
    assert(tree.edges@.take(tree.edges@.len() as int) =~= tree.edges@);
    // No interior link may already belong to a long arrow.
    let mut k: usize = 0;
    while k < interior_links.len()
        invariant
            k <= interior_links@.len(),
            counters.wf(),
            *counters == *old(counters),
            *tree == *old(tree),
            attached(tree.nodes@, from@),
            attached(tree.nodes@, to@),
            reaches(tree.edges@, from@, to@),
            views(interior_links@) == interior_link_ids(tree.edges@, tree.edges@, from@, to@),
            forall|q: int| 0 <= q < k ==> !in_some_macro(tree.macro_edges@, #[trigger] interior_links@[q]@),
        decreases interior_links@.len() - k,
    {
        if in_macros(&tree.macro_edges, &interior_links[k]) {
            proof {
                let ids = interior_link_ids(tree.edges@, tree.edges@, from@, to@);
                assert(ids[k as int] == interior_links@[k as int]@);
            }
            return Err(OutputError::new("NESTED_MACRO_NOT_ALLOWED", owned("Sub-graph already contains a macro_edge")));
        }
        k = k + 1;
    }
    proof {
        let ids = interior_link_ids(tree.edges@, tree.edges@, from@, to@);
        assert forall|q: int| 0 <= q < ids.len() implies !in_some_macro(tree.macro_edges@, #[trigger] ids[q]) by {
            assert(ids[q] == interior_links@[q]@);
        }
    }
    let id = counters.mint("MACRO");
    let m = MacroEdge {
        id: id.clone(),
        from: from_s.clone(),
        to: to_s.clone(),
        label: owned(label),
        interior_nodes: interior_nodes.clone(),
        interior_links: interior_links.clone(),
        status: owned("active"),
        assumptions: Vec::new(),
    };
    let ghost pre = tree.macro_edges@;
    tree.macro_edges.push(m);
    proof {
        assert(macro_views(tree.macro_edges@) =~= macro_views(pre).push(tree.macro_edges@.last()@));
        assert(tree.macro_edges@.last()@.assumptions =~= Seq::<crate::tree::types::MacroAssumptionView>::empty());
    }
    Ok(CollapseData {
        macro_edge_id: id,
        from: from_s,
        to: to_s,
        label: owned(label),
        interior_nodes,
        interior_links,
    })
}

} // verus!

verus! {

/// Result of exploding an assumption into a node.
#[derive(Debug, Clone)]
pub struct ExplodeData {
    pub created_node_id: String,
    pub created_links: Vec<String>,
    pub removed_assumption: String,
    pub original_link_removed: String,
}

/// The edge carries an assumption with this ID.
pub open spec fn has_assumption(e: Edge, asm_id: Seq<char>) -> bool {
    exists|k: int| 0 <= k < e.assumptions@.len() && #[trigger] e.assumptions@[k].id@ == asm_id
}

/// Whether the edge carries the assumption.
fn edge_has_assumption(e: &Edge, asm_id: &str) -> (r: bool)
    ensures r == has_assumption(*e, asm_id@),
{
    let key = owned(asm_id);
    let mut k: usize = 0;
    while k < e.assumptions.len()
        invariant
            k <= e.assumptions@.len(),
            key@ == asm_id@,
            forall|q: int| 0 <= q < k ==> #[trigger] e.assumptions@[q].id@ != asm_id@,
        decreases e.assumptions@.len() - k,
    {
        if e.assumptions[k].id == key {
            return true;
        }
        k = k + 1;
    }
    false
}

/// Turn the assumption `asm_id` of edge `link_id` into a new `INT` node
/// labelled `label`: the edge is replaced by two single edges (its causes
/// to the node, the node to its effect) with the edge's logic, and the node
/// is attached to the tree. Returns the new node for the pool. Refused when
/// the edge is not in the tree or does not carry the assumption; a refusal
/// leaves tree and counters unchanged.
pub fn path_explode(tree: &mut Tree, counters: &mut Counters, link_id: &str, asm_id: &str, label: &str)
    -> (r: Result<(Node, ExplodeData), OutputError>)
    requires
        old(counters).wf(),
        old(counters).room("INT"@, 1),
        old(counters).room("LINK"@, 2),
    ensures
        final(counters).wf(),
        r is Err ==> *final(tree) == *old(tree) && final(counters).values@ == old(counters).values@,
        !edge_ids(old(tree).edges@).contains(link_id@)
            ==> err_is(r, "LINK_NOT_FOUND"@, quoted_detail("Link"@, link_id@, " not found in tree '"@ + old(tree).id@ + "'"@)),
        forall|i: int| first_at(edge_ids(old(tree).edges@), link_id@, i) ==> {
            let e = old(tree).edges@[i];
            let c0 = old(counters).values@;
            let c1 = minted(c0, "INT"@, 1);
            let node_id = nth_id(c0, "INT"@, 1);
            let a_id = nth_id(c1, "LINK"@, 1);
            let b_id = nth_id(c1, "LINK"@, 2);
            &&& !has_assumption(e, asm_id@) ==> err_is(r, "ASSUMPTION_NOT_IN_LINK"@,
                    quoted_detail("Assumption"@, asm_id@, " not found in link '"@ + link_id@ + "'"@))
            &&& has_assumption(e, asm_id@) ==> (r matches Ok((n, d)) && {
                &&& n@ == (NodeView {
                        id: node_id,
                        node_type: NodeType::Int,
                        label: label@,
                        tags: Seq::empty(),
                        observable: true,
                        epistemic: EpistemicStatus::Hypothesis,
                        status: NodeStatus::Active,
                        extra: Seq::empty(),
                    })
                &&& d.created_node_id@ == node_id
                &&& views(d.created_links@) == seq![a_id, b_id]
                &&& d.removed_assumption@ == asm_id@
                &&& d.original_link_removed@ == link_id@
                &&& final(counters).values@ == minted(c1, "LINK"@, 2)
                &&& final(tree)@ == reshaped(old(tree)@,
                        old(tree)@.nodes.push(NodeRefView { node_ref: node_id, role: None }),
                        edge_views(old(tree).edges@.remove(i))
                            .push(EdgeView { id: a_id, from: e@.from, to: node_id, operator: Operator::Single,
                                weight: None, status: EdgeStatus::Active, logic: e.logic, assumptions: Seq::empty() })
                            .push(EdgeView { id: b_id, from: seq![node_id], to: e.to@, operator: Operator::Single,
                                weight: None, status: EdgeStatus::Active, logic: e.logic, assumptions: Seq::empty() }),
                        old(tree)@.macro_edges)
            })
        },
{
    let idx = match find_edge(&tree.edges, link_id) {
        Some(i) => i,
        None => {
            return Err(quoted_error("LINK_NOT_FOUND", "Link", link_id, cat3(" not found in tree '", tree.id.as_str(), "'").as_str()));
        },
    };
    if !edge_has_assumption(&tree.edges[idx], asm_id) {
        return Err(quoted_error("ASSUMPTION_NOT_IN_LINK", "Assumption", asm_id, cat3(" not found in link '", link_id, "'").as_str()));
    }
    let ghost c0 = counters.values@;
    let int_id = counters.mint("INT");
    proof {
        reveal_strlit("INT");
        reveal_strlit("LINK");
        assert("INT"@[0] != "LINK"@[0]);
        lemma_mint_other(c0, "INT"@, "LINK"@, 1);
    }
    let a_id = counters.mint("LINK");
    let ghost c2 = counters.values@;
    let b_id = counters.mint("LINK");
    proof {
        lemma_mint_chain(minted(c0, "INT"@, 1), "LINK"@, 1, 1, 1);
    }
    let node = new_node(int_id.clone(), NodeType::Int, owned(label), Vec::new(), true, EpistemicStatus::Hypothesis);
    assert(node@.tags =~= Seq::<Seq<char>>::empty());
    assert(node@.extra =~= Seq::<(Seq<char>, Seq<char>)>::empty());
    let original_from = clone_strings(&tree.edges[idx].from);
    let original_to = tree.edges[idx].to.clone();
    let logic = tree.edges[idx].logic;
    let ghost e = tree.edges@[idx as int];
    let edge_a = plain_edge(a_id.clone(), original_from, int_id.clone(), Operator::Single, logic);
    let mut b_from: Vec<String> = Vec::new();
    b_from.push(int_id.clone());
    let edge_b = plain_edge(b_id.clone(), b_from, original_to, Operator::Single, logic);
    assert(views(b_from@) =~= seq![int_id@]);
    let ghost pre_edges = tree.edges@;
    let ghost pre_nodes = tree.nodes@;
    let removed = tree.edges.remove(idx);
    tree.edges.push(edge_a);
    tree.edges.push(edge_b);
    tree.nodes.push(NodeRef { node_ref: int_id.clone(), role: None });
    proof {
        assert(edge_views(tree.edges@) =~= edge_views(pre_edges.remove(idx as int)).push(edge_a@).push(edge_b@));
        assert(noderef_views(tree.nodes@) =~= noderef_views(pre_nodes).push(NodeRefView { node_ref: int_id@, role: None }));
    }
    let mut created: Vec<String> = Vec::new();
    created.push(a_id);
    created.push(b_id);
    assert(views(created@) =~= seq![created@[0]@, created@[1]@]);
    Ok((node, ExplodeData {
        created_node_id: int_id,
        created_links: created,
        removed_assumption: owned(asm_id),
        original_link_removed: removed.id,
    }))
}

} // verus!

verus! {

/// Result of replacing a long arrow's chain by a single node.
#[derive(Debug, Clone)]
pub struct ReplaceData {
    pub macro_link: String,
    pub by_node: String,
    pub superseded_links: Vec<String>,
    pub superseded_nodes: Vec<String>,
    pub new_links: Vec<String>,
}

/// The IDs of the long arrows, in order.
pub open spec fn macro_ids(v: Seq<MacroEdge>) -> Seq<Seq<char>> {
    v.map_values(|m: MacroEdge| m.id@)
}

/// Position of the first long arrow with the given ID.
pub fn find_macro(macros: &Vec<MacroEdge>, id: &str) -> (r: Option<usize>)
    ensures
        match r {
            Some(i) => first_at(macro_ids(macros@), id@, i as int),
            None => !macro_ids(macros@).contains(id@),
        },
{
    let key = owned(id);
    let mut i: usize = 0;
    while i < macros.len()
        invariant
            i <= macros@.len(),
            key@ == id@,
            forall|k: int| 0 <= k < i ==> macro_ids(macros@)[k] != id@,
        decreases macros@.len() - i,
    {
        if macros[i].id == key {
            return Some(i);
        }
        i = i + 1;
    }
    proof {
        if macro_ids(macros@).contains(id@) {
            let k = choose|k: int| 0 <= k < macro_ids(macros@).len() && macro_ids(macros@)[k] == id@;
            assert(macro_ids(macros@)[k] != id@);
        }
    }
    None
}

/// The edge marked superseded when its ID is among `ids`.
pub open spec fn supersede(e: EdgeView, ids: Seq<Seq<char>>) -> EdgeView {
    if ids.contains(e.id) {
        EdgeView {
            id: e.id,
            from: e.from,
            to: e.to,
            operator: e.operator,
            weight: e.weight,
            status: EdgeStatus::Superseded,
            logic: e.logic,
            assumptions: e.assumptions,
        }
    } else {
        e
    }
}

/// IDs, in order, of the edges whose ID is among `ids`.
pub open spec fn ids_among(edges: Seq<EdgeView>, ids: Seq<Seq<char>>) -> Seq<Seq<char>>
    decreases edges.len(),
{
    if edges.len() == 0 {
        Seq::empty()
    } else {
        let r = ids_among(edges.drop_last(), ids);
        if ids.contains(edges.last().id) { r.push(edges.last().id) } else { r }
    }
}

/// The elements of `xs`, in order, that occur in `pool`.
pub open spec fn keep_in(xs: Seq<Seq<char>>, pool: Seq<Seq<char>>) -> Seq<Seq<char>>
    decreases xs.len(),
{
    if xs.len() == 0 {
        Seq::empty()
    } else {
        let r = keep_in(xs.drop_last(), pool);
        if pool.contains(xs.last()) { r.push(xs.last()) } else { r }
    }
}

proof fn lemma_has_id_contains(v: Seq<String>, x: Seq<char>)
    ensures has_id(v, x) <==> views(v).contains(x),
{
    if has_id(v, x) {
        let k = choose|k: int| 0 <= k < v.len() && #[trigger] v[k]@ == x;
        assert(views(v)[k] == x);
    }
    if views(v).contains(x) {
        let k = choose|k: int| 0 <= k < views(v).len() && views(v)[k] == x;
        assert(v[k]@ == x);
    }
}

/// Replace the chain of long arrow `macro_link_id` by the pool node
/// `by_node_id`: the arrow's interior links are marked superseded, the node
/// is attached when it is not, two single edges join the arrow's ends
/// through it, and the arrow is removed. The interior nodes present in the
/// pool are reported as superseded (the caller marks them in the pool).
/// Refused when the arrow is not in the tree or the node not in the pool; a
/// refusal leaves tree and counters unchanged.
pub fn path_replace(tree: &mut Tree, counters: &mut Counters, pool: &Vec<String>, macro_link_id: &str, by_node_id: &str)
    -> (r: Result<ReplaceData, OutputError>)
    requires
        old(counters).wf(),
        old(counters).room("LINK"@, 2),
    ensures
        final(counters).wf(),
        r is Err ==> *final(tree) == *old(tree) && final(counters).values@ == old(counters).values@,
        !macro_ids(old(tree).macro_edges@).contains(macro_link_id@)
            ==> err_is(r, "MACRO_EDGE_NOT_FOUND"@, quoted_detail("Macro edge"@, macro_link_id@, " not found in tree '"@ + old(tree).id@ + "'"@)),
        forall|i: int| first_at(macro_ids(old(tree).macro_edges@), macro_link_id@, i) ==> {
            let m = old(tree).macro_edges@[i]@;
            let c0 = old(counters).values@;
            let a_id = nth_id(c0, "LINK"@, 1);
            let b_id = nth_id(c0, "LINK"@, 2);
            &&& !has_id(pool@, by_node_id@) ==> err_is(r, "NODE_NOT_FOUND"@, quoted_detail("Node"@, by_node_id@, " not found in pool"@))
            &&& has_id(pool@, by_node_id@) ==> (r matches Ok(d) && {
                &&& d.macro_link@ == macro_link_id@
                &&& d.by_node@ == by_node_id@
                &&& views(d.superseded_links@) == ids_among(old(tree)@.edges, m.interior_links)
                &&& views(d.superseded_nodes@) == keep_in(m.interior_nodes, views(pool@))
                &&& views(d.new_links@) == seq![a_id, b_id]
                &&& final(counters).values@ == minted(c0, "LINK"@, 2)
                &&& final(tree)@ == reshaped(old(tree)@,
                        if attached(old(tree).nodes@, by_node_id@) { old(tree)@.nodes }
                        else { old(tree)@.nodes.push(NodeRefView { node_ref: by_node_id@, role: None }) },
                        old(tree)@.edges.map_values(|e: EdgeView| supersede(e, m.interior_links))
                            .push(EdgeView { id: a_id, from: seq![m.from], to: by_node_id@, operator: Operator::Single,
                                weight: None, status: EdgeStatus::Active, logic: Logic::Sufficiency, assumptions: Seq::empty() })
                            .push(EdgeView { id: b_id, from: seq![by_node_id@], to: m.to, operator: Operator::Single,
                                weight: None, status: EdgeStatus::Active, logic: Logic::Sufficiency, assumptions: Seq::empty() }),
                        old(tree)@.macro_edges.remove(i))
            })
        },
{
    let idx = match find_macro(&tree.macro_edges, macro_link_id) {
        Some(i) => i,
        None => {
            return Err(quoted_error("MACRO_EDGE_NOT_FOUND", "Macro edge", macro_link_id, cat3(" not found in tree '", tree.id.as_str(), "'").as_str()));
        },
    };
    let by = owned(by_node_id);
    if !contains_string(pool, &by) {
        return Err(quoted_error("NODE_NOT_FOUND", "Node", by_node_id, " not found in pool"));
    }
    let ghost m = tree.macro_edges@[idx as int]@;
    let macro_from = tree.macro_edges[idx].from.clone();
    let macro_to = tree.macro_edges[idx].to.clone();
    let links = clone_strings(&tree.macro_edges[idx].interior_links);
    let interior = clone_strings(&tree.macro_edges[idx].interior_nodes);
    // Mark the interior links superseded.
    let mut new_edges: Vec<Edge> = Vec::new();
    let mut superseded_links: Vec<String> = Vec::new();
    let mut k: usize = 0;
    while k < tree.edges.len()
        invariant
            k <= tree.edges@.len(),
            views(links@) == m.interior_links,
            new_edges@.len() == k,
            forall|q: int| 0 <= q < k ==> (#[trigger] new_edges@[q])@ == supersede(tree.edges@[q]@, m.interior_links),
            views(superseded_links@) == ids_among(edge_views(tree.edges@).take(k as int), m.interior_links),
        decreases tree.edges@.len() - k,
    {
        let mut e = clone_edge(&tree.edges[k]);
        let hit = contains_string(&links, &tree.edges[k].id);
        proof {
            lemma_has_id_contains(links@, tree.edges@[k as int].id@);
            assert(edge_views(tree.edges@).take(k + 1).drop_last() =~= edge_views(tree.edges@).take(k as int));
            assert(edge_views(tree.edges@).take(k + 1).last() == tree.edges@[k as int]@);
        }
        let ghost pre = superseded_links@;
        if hit {
            e.status = EdgeStatus::Superseded;
            superseded_links.push(tree.edges[k].id.clone());
            proof { assert(views(superseded_links@) =~= views(pre).push(tree.edges@[k as int].id@)); }
        }
        new_edges.push(e);
        k = k + 1;
    }
    assert(edge_views(tree.edges@).take(tree.edges@.len() as int) =~= edge_views(tree.edges@));
    // The interior nodes present in the pool.
    let mut superseded_nodes: Vec<String> = Vec::new();
    let mut n: usize = 0;
    while n < interior.len()
        invariant
            n <= interior@.len(),
            views(interior@) == m.interior_nodes,
            views(superseded_nodes@) == keep_in(views(interior@).take(n as int), views(pool@)),
        decreases interior@.len() - n,
    {
        let present = contains_string(pool, &interior[n]);
        proof {
            lemma_has_id_contains(pool@, interior@[n as int]@);
            assert(views(interior@).take(n + 1).drop_last() =~= views(interior@).take(n as int));
            assert(views(interior@).take(n + 1).last() == interior@[n as int]@);
        }
        let ghost pre = superseded_nodes@;
        if present {
            superseded_nodes.push(interior[n].clone());
            proof { assert(views(superseded_nodes@) =~= views(pre).push(interior@[n as int]@)); }
        }
        n = n + 1;
    }
    assert(views(interior@).take(interior@.len() as int) =~= views(interior@));
    let ghost pre_nodes = tree.nodes@;
    if !is_attached(&tree.nodes, &by) {
        tree.nodes.push(NodeRef { node_ref: by.clone(), role: None });
        proof { assert(noderef_views(tree.nodes@) =~= noderef_views(pre_nodes).push(NodeRefView { node_ref: by@, role: None })); }
    }
    let ghost c0 = counters.values@;
    let a_id = counters.mint("LINK");
    let b_id = counters.mint("LINK");
    proof { lemma_mint_chain(c0, "LINK"@, 1, 1, 1); }
    let mut a_from: Vec<String> = Vec::new();
    a_from.push(macro_from);
    let mut b_from: Vec<String> = Vec::new();
    b_from.push(by.clone());
    let edge_a = plain_edge(a_id.clone(), a_from, by.clone(), Operator::Single, Logic::Sufficiency);
    let edge_b = plain_edge(b_id.clone(), b_from, macro_to, Operator::Single, Logic::Sufficiency);
    proof {
        assert(views(a_from@) =~= seq![m.from]);
        assert(views(b_from@) =~= seq![by_node_id@]);
    }
    let ghost old_edges = tree.edges@;
    new_edges.push(edge_a);
    new_edges.push(edge_b);
    tree.edges = new_edges;
    let ghost pre_macros = tree.macro_edges@;
    tree.macro_edges.remove(idx);
    proof {
        assert(edge_views(tree.edges@) =~= edge_views(old_edges).map_values(|e: EdgeView| supersede(e, m.interior_links))
            .push(edge_a@).push(edge_b@));
        assert(macro_views(tree.macro_edges@) =~= macro_views(pre_macros).remove(idx as int));
    }
    let mut new_links: Vec<String> = Vec::new();
    new_links.push(a_id);
    new_links.push(b_id);
    assert(views(new_links@) =~= seq![new_links@[0]@, new_links@[1]@]);
    Ok(ReplaceData {
        macro_link: owned(macro_link_id),
        by_node: by,
        superseded_links,
        superseded_nodes,
        new_links,
    })
}

} // verus!
