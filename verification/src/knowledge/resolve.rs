//! Resolution of the targets of knowledge links against the causal graph.
use vstd::prelude::*;
use crate::link::types::{edge_ids, edge_views, find_edge, first_at, AssumptionView, Edge, EdgeView, FeedbackEdge};
use crate::node::types::Node;
use crate::strutil::{has_prefix, join_strings, joined, owned, starts_with, views, cat3, lemma_take_all};
use crate::tree::types::{NbrBranchView, Tree};
use crate::validate::clr::{find_node, find_node_index};

verus! {

/// Information about a resolved target entity in the graph.
#[derive(Debug, Clone)]
pub struct ResolvedTarget {
    pub id: String,
    pub label: Option<String>,
    pub target_type: String,
}

/// The edges of the negative branches, branch after branch.
pub open spec fn branch_edges(b: Seq<NbrBranchView>) -> Seq<EdgeView>
    decreases b.len(),
{
    if b.len() == 0 { Seq::empty() } else { branch_edges(b.drop_last()) + b.last().edges }
}

/// The edges of every tree: each tree's trunk edges, then its branch edges.
pub open spec fn graph_edges(trees: Seq<Tree>) -> Seq<EdgeView>
    decreases trees.len(),
{
    if trees.len() == 0 {
        Seq::empty()
    } else {
        graph_edges(trees.drop_last()) + trees.last()@.edges + branch_edges(trees.last()@.nbr_branches)
    }
}

/// The feedback edges of every tree, tree after tree.
pub open spec fn graph_feedback(trees: Seq<Tree>) -> Seq<FeedbackEdge>
    decreases trees.len(),
{
    if trees.len() == 0 { Seq::empty() } else { graph_feedback(trees.drop_last()) + trees.last().feedback_edges@ }
}

/// The assumptions of the edges, edge after edge.
pub open spec fn edge_assumptions(edges: Seq<EdgeView>) -> Seq<AssumptionView>
    decreases edges.len(),
{
    if edges.len() == 0 { Seq::empty() } else { edge_assumptions(edges.drop_last()) + edges.last().assumptions }
}

/// The IDs of `graph_edges`.
pub open spec fn graph_edge_ids(trees: Seq<Tree>) -> Seq<Seq<char>> {
    graph_edges(trees).map_values(|e: EdgeView| e.id)
}

/// The IDs of `graph_feedback`.
pub open spec fn feedback_ids(trees: Seq<Tree>) -> Seq<Seq<char>> {
    graph_feedback(trees).map_values(|f: FeedbackEdge| f.id@)
}

/// The IDs of assumptions.
pub open spec fn assumption_ids(asms: Seq<AssumptionView>) -> Seq<Seq<char>> {
    asms.map_values(|a: AssumptionView| a.id)
}

/// `<from joined by +> -> <to>`.
pub open spec fn edge_label(e: EdgeView) -> Seq<char> {
    joined(e.from, "+"@) + " -> "@ + e.to
}

/// The label of a feedback edge: its own, or `<from> -> <to>`.
pub open spec fn feedback_label(f: FeedbackEdge) -> Seq<char> {
    match f.label {
        Some(l) => l@,
        None => f.from@ + " -> "@ + f.to@,
    }
}

/// The target resolves to `(label, kind)`.
pub open spec fn resolves_to(r: Option<ResolvedTarget>, target: Seq<char>, label: Seq<char>, kind: Seq<char>) -> bool {
    match r {
        Some(t) => t.id@ == target && t.label is Some && t.label.unwrap()@ == label && t.target_type@ == kind,
        None => false,
    }
}

/// What a target resolves to: `MACRO-` targets never; `LINK-` targets to
/// the first edge of the trees (trunk, then branches) with that ID;
/// `FB-` targets to the first such feedback edge; `ASM-` targets to the
/// first such assumption; anything else to the node of the pool.
pub open spec fn resolution(r: Option<ResolvedTarget>, target: Seq<char>, nodes: Seq<Node>, trees: Seq<Tree>) -> bool {
    if starts_with(target, "MACRO-"@) {
        r is None
    } else if starts_with(target, "LINK-"@) {
        let ids = graph_edge_ids(trees);
        &&& !ids.contains(target) ==> r is None
        &&& forall|i: int| first_at(ids, target, i)
                ==> resolves_to(r, target, edge_label(graph_edges(trees)[i]), "edge"@)
    } else if starts_with(target, "FB-"@) {
        let ids = feedback_ids(trees);
        &&& !ids.contains(target) ==> r is None
        &&& forall|i: int| first_at(ids, target, i)
                ==> resolves_to(r, target, feedback_label(graph_feedback(trees)[i]), "feedback_edge"@)
    } else if starts_with(target, "ASM-"@) {
        let asms = edge_assumptions(graph_edges(trees));
        let ids = assumption_ids(asms);
        &&& !ids.contains(target) ==> r is None
        &&& forall|i: int| first_at(ids, target, i) ==> resolves_to(r, target, asms[i].text, "assumption"@)
    } else {
        match find_node(nodes, target) {
            Some(n) => resolves_to(r, target, n.label@, "node"@),
            None => r is None,
        }
    }
}

fn push_edges(acc: &mut Vec<Edge>, edges: &Vec<Edge>)
    ensures edge_views(final(acc)@) == edge_views(old(acc)@) + edge_views(edges@),
{
    let mut j: usize = 0;
    while j < edges.len()
        invariant
            j <= edges@.len(),
            edge_views(acc@) == edge_views(old(acc)@) + edge_views(edges@).take(j as int),
        decreases edges@.len() - j,
    {
        let ghost pre = acc@;
        acc.push(crate::link::types::clone_edge(&edges[j]));
        proof {
            assert(edge_views(acc@) =~= edge_views(pre).push(edges@[j as int]@));
            assert(edge_views(edges@).take(j + 1) =~= edge_views(edges@).take(j as int).push(edges@[j as int]@));
        }
        j = j + 1;
    }
    proof { lemma_take_all(edge_views(edges@)); }
}

/// All edges of the trees, in the order of `graph_edges`.
fn collect_edges(trees: &Vec<Tree>) -> (r: Vec<Edge>)
    ensures edge_views(r@) == graph_edges(trees@),
{
    let mut acc: Vec<Edge> = Vec::new();
    let mut i: usize = 0;
    while i < trees.len()
        invariant
            i <= trees@.len(),
            edge_views(acc@) == graph_edges(trees@.take(i as int)),
        decreases trees@.len() - i,
    {
        let t = &trees[i];
        proof {
            let a = trees@.take(i + 1);
            assert(a.drop_last() =~= trees@.take(i as int));
            assert(a.last() == trees@[i as int]);
        }
        let ghost base = edge_views(acc@) + t@.edges;
        push_edges(&mut acc, &t.edges);
        let mut b: usize = 0;
        while b < t.nbr_branches.len()
            invariant
                b <= t@.nbr_branches.len(),
                t.nbr_branches@.len() == t@.nbr_branches.len(),
                edge_views(acc@) == base + branch_edges(t@.nbr_branches.take(b as int)),
            decreases t.nbr_branches@.len() - b,
        {
            proof {
                let a = t@.nbr_branches.take(b + 1);
                assert(a.drop_last() =~= t@.nbr_branches.take(b as int));
                assert(a.last() == t.nbr_branches@[b as int]@);
            }
            push_edges(&mut acc, &t.nbr_branches[b].edges);
            proof {
                assert(edge_views(acc@) =~= base + branch_edges(t@.nbr_branches.take(b + 1)));
            }
            b = b + 1;
        }
        proof {
            lemma_take_all(t@.nbr_branches);
            assert(edge_views(acc@) =~= graph_edges(trees@.take(i + 1)));
        }
        i = i + 1;
    }
    proof { lemma_take_all(trees@); }
    acc
}

/// All feedback edges of the trees, in the order of `graph_feedback`.
fn collect_feedback(trees: &Vec<Tree>) -> (r: Vec<FeedbackEdge>)
    ensures r@ == graph_feedback(trees@),
{
    let mut acc: Vec<FeedbackEdge> = Vec::new();
    let mut i: usize = 0;
    while i < trees.len()
        invariant
            i <= trees@.len(),
            acc@ == graph_feedback(trees@.take(i as int)),
        decreases trees@.len() - i,
    {
        proof {
            let a = trees@.take(i + 1);
            assert(a.drop_last() =~= trees@.take(i as int));
            assert(a.last() == trees@[i as int]);
        }
        let fbs = &trees[i].feedback_edges;
        let ghost base = acc@;
        let mut j: usize = 0;
        while j < fbs.len()
            invariant
                j <= fbs@.len(),
                acc@ == base + fbs@.take(j as int),
            decreases fbs@.len() - j,
        {
            let f = &fbs[j];
            let c = FeedbackEdge {
                id: f.id.clone(),
                from: f.from.clone(),
                to: f.to.clone(),
                loop_type: f.loop_type,
                label: crate::strutil::clone_opt_string(&f.label),
            };
            proof { assert(c == *f); }
            acc.push(c);
            proof { assert(acc@ =~= base + fbs@.take(j + 1)); }
            j = j + 1;
        }
        proof {
            lemma_take_all(fbs@);
            assert(acc@ =~= graph_feedback(trees@.take(i + 1)));
        }
        i = i + 1;
    }
    proof { lemma_take_all(trees@); }
    acc
}

/// The assumptions of the edges as (ID, text) pairs, in order.
fn collect_assumptions(edges: &Vec<Edge>) -> (r: Vec<(String, String)>)
    ensures
        r@.len() == edge_assumptions(edge_views(edges@)).len(),
        forall|k: int| 0 <= k < r@.len() ==> (#[trigger] r@[k]).0@ == edge_assumptions(edge_views(edges@))[k].id
            && r@[k].1@ == edge_assumptions(edge_views(edges@))[k].text,
{
    let mut acc: Vec<(String, String)> = Vec::new();
    let mut i: usize = 0;
    while i < edges.len()
        invariant
            i <= edges@.len(),
            acc@.len() == edge_assumptions(edge_views(edges@).take(i as int)).len(),
            forall|k: int| 0 <= k < acc@.len() ==> (#[trigger] acc@[k]).0@ == edge_assumptions(edge_views(edges@).take(i as int))[k].id
                && acc@[k].1@ == edge_assumptions(edge_views(edges@).take(i as int))[k].text,
        decreases edges@.len() - i,
    {
        let ghost prev = edge_assumptions(edge_views(edges@).take(i as int));
        proof {
            let a = edge_views(edges@).take(i + 1);
            assert(a.drop_last() =~= edge_views(edges@).take(i as int));
            assert(a.last() == edges@[i as int]@);
        }
        let asms = &edges[i].assumptions;
        let mut j: usize = 0;
        while j < asms.len()
            invariant
                j <= asms@.len(),
                i < edges@.len(),
                asms@ == edges@[i as int].assumptions@,
                asms@.len() == edges@[i as int]@.assumptions.len(),
                acc@.len() == prev.len() + j,
                forall|k: int| 0 <= k < acc@.len() ==> (#[trigger] acc@[k]).0@ == (prev + edges@[i as int]@.assumptions)[k].id
                    && acc@[k].1@ == (prev + edges@[i as int]@.assumptions)[k].text,
            decreases asms@.len() - j,
        {
            assert(j < edges@[i as int]@.assumptions.len());
            proof {
                assert(asms@[j as int]@ == edges@[i as int]@.assumptions[j as int]);
            }
            let ghost pre = acc@;
            acc.push((asms[j].id.clone(), asms[j].text.clone()));
            proof {
                assert forall|k: int| 0 <= k < acc@.len() implies (#[trigger] acc@[k]).0@ == (prev + edges@[i as int]@.assumptions)[k].id
                    && acc@[k].1@ == (prev + edges@[i as int]@.assumptions)[k].text by {
                    if k < pre.len() { assert(acc@[k] == pre[k]); }
                }
            }
            j = j + 1;
        }
        proof {
            assert(edge_assumptions(edge_views(edges@).take(i + 1)) == prev + edges@[i as int]@.assumptions);
        }
        i = i + 1;
    }
    proof { lemma_take_all(edge_views(edges@)); }
    acc
}

/// Resolves a target ID against the node pool and the loaded trees.
pub fn resolve_target(target: &str, nodes: &Vec<Node>, trees: &Vec<Tree>) -> (r: Option<ResolvedTarget>)
    ensures resolution(r, target@, nodes@, trees@),
{
    if has_prefix(target, "MACRO-") {
        return None;
    }
    if has_prefix(target, "LINK-") {
        let all = collect_edges(trees);
        proof {
            assert(edge_ids(all@) =~= graph_edge_ids(trees@));
        }
        return match find_edge(&all, target) {
            Some(i) => {
                let from = join_strings(&all[i].from, "+");
                let label = cat3(from.as_str(), " -> ", all[i].to.as_str());
                proof {
                    assert(all@[i as int]@ == graph_edges(trees@)[i as int]);
                    let ids = graph_edge_ids(trees@);
                    assert forall|k: int| first_at(ids, target@, k) implies k == i by {
                        if k < i { assert(ids[k] != target@); }
                        if i < k { assert(ids[i as int] != target@); }
                    }
                }
                Some(ResolvedTarget { id: owned(target), label: Some(label), target_type: owned("edge") })
            },
            None => None,
        };
    }
    let key = owned(target);
    if has_prefix(target, "FB-") {
        let fbs = collect_feedback(trees);
        let mut i: usize = 0;
        while i < fbs.len()
            invariant
                i <= fbs@.len(),
                fbs@ == graph_feedback(trees@),
                key@ == target@,
                !starts_with(target@, "MACRO-"@) && !starts_with(target@, "LINK-"@) && starts_with(target@, "FB-"@),
                forall|k: int| 0 <= k < i ==> fbs@[k].id@ != target@,
            decreases fbs@.len() - i,
        {
            if fbs[i].id == key {
                let label = match &fbs[i].label {
                    Some(l) => l.clone(),
                    None => cat3(fbs[i].from.as_str(), " -> ", fbs[i].to.as_str()),
                };
                proof {
                    let ids = feedback_ids(trees@);
                    assert(ids[i as int] == fbs@[i as int].id@);
                    assert forall|k: int| first_at(ids, target@, k) implies k == i by {
                        if k < i { assert(ids[k] == fbs@[k].id@); }
                    }
                }
                let res = Some(ResolvedTarget { id: owned(target), label: Some(label), target_type: owned("feedback_edge") });
                proof {
                    assert(graph_feedback(trees@)[i as int] == fbs@[i as int]);
                    assert(resolves_to(res, target@, feedback_label(graph_feedback(trees@)[i as int]), "feedback_edge"@));
                }
                return res;
            }
            i = i + 1;
        }
        proof {
            let ids = feedback_ids(trees@);
            if ids.contains(target@) {
                let k = choose|k: int| 0 <= k < ids.len() && ids[k] == target@;
                assert(fbs@[k].id@ != target@);
            }
        }
        return None;
    }
    if has_prefix(target, "ASM-") {
        let all = collect_edges(trees);
        let asms = collect_assumptions(&all);
        let ghost spec_asms = edge_assumptions(graph_edges(trees@));
        let mut i: usize = 0;
        while i < asms.len()
            invariant
                i <= asms@.len(),
                asms@.len() == spec_asms.len(),
                key@ == target@,
                spec_asms == edge_assumptions(graph_edges(trees@)),
                !starts_with(target@, "MACRO-"@) && !starts_with(target@, "LINK-"@) && !starts_with(target@, "FB-"@),
                starts_with(target@, "ASM-"@),
                forall|k: int| 0 <= k < asms@.len() ==> (#[trigger] asms@[k]).0@ == spec_asms[k].id
                    && asms@[k].1@ == spec_asms[k].text,
                forall|k: int| 0 <= k < i ==> spec_asms[k].id != target@,
            decreases asms@.len() - i,
        {
            if asms[i].0 == key {
                proof {
                    let ids = assumption_ids(spec_asms);
                    assert(asms@[i as int].0@ == spec_asms[i as int].id);
                    assert(ids[i as int] == spec_asms[i as int].id);
                    assert forall|k: int| first_at(ids, target@, k) implies k == i by {
                        if k < i { assert(ids[k] == spec_asms[k].id); }
                    }
                }
                let res = Some(ResolvedTarget { id: owned(target), label: Some(asms[i].1.clone()), target_type: owned("assumption") });
                proof {
                    assert(asms@[i as int].1@ == spec_asms[i as int].text);
                    assert(resolves_to(res, target@, spec_asms[i as int].text, "assumption"@));
                }
                return res;
            }
            i = i + 1;
        }
        proof {
            let ids = assumption_ids(spec_asms);
            if ids.contains(target@) {
                let k = choose|k: int| 0 <= k < ids.len() && ids[k] == target@;
                assert(asms@[k].0@ == spec_asms[k].id);
            }
        }
        return None;
    }
    match find_node_index(nodes, &key) {
        Some(i) => Some(ResolvedTarget { id: key, label: Some(nodes[i].label.clone()), target_type: owned("node") }),
        None => None,
    }
}

/// Whether a target ID exists in the graph.
pub fn target_exists(target: &str, nodes: &Vec<Node>, trees: &Vec<Tree>) -> (r: bool)
    ensures r == exists|t: ResolvedTarget| resolution(Some(t), target@, nodes@, trees@),
{
    let res = resolve_target(target, nodes, trees);
    proof {
        if res is None {
            assert forall|t: ResolvedTarget| !resolution(Some(t), target@, nodes@, trees@) by {
                if resolution(Some(t), target@, nodes@, trees@) {
                    lemma_resolution_unique(target@, nodes@, trees@, None, Some(t));
                }
            }
        } else {
            assert(resolution(Some(res.unwrap()), target@, nodes@, trees@));
        }
    }
    res.is_some()
}

/// A target resolves, or does not, the same way whatever the candidate.
pub proof fn lemma_resolution_unique(target: Seq<char>, nodes: Seq<Node>, trees: Seq<Tree>, a: Option<ResolvedTarget>, b: Option<ResolvedTarget>)
    requires resolution(a, target, nodes, trees), resolution(b, target, nodes, trees),
    ensures a is None <==> b is None,
{
    if starts_with(target, "MACRO-"@) {
    } else if starts_with(target, "LINK-"@) {
        let ids = graph_edge_ids(trees);
        if ids.contains(target) {
            let i = first_index(ids, target);
            assert(first_at(ids, target, i));
        }
    } else if starts_with(target, "FB-"@) {
        let ids = feedback_ids(trees);
        if ids.contains(target) {
            let i = first_index(ids, target);
            assert(first_at(ids, target, i));
        }
    } else if starts_with(target, "ASM-"@) {
        let ids = assumption_ids(edge_assumptions(graph_edges(trees)));
        if ids.contains(target) {
            let i = first_index(ids, target);
            assert(first_at(ids, target, i));
        }
    }
}

/// The first position of an element that occurs.
proof fn first_index(ids: Seq<Seq<char>>, x: Seq<char>) -> (i: int)
    requires ids.contains(x),
    ensures first_at(ids, x, i),
    decreases ids.len(),
{
    if ids[0] == x {
        0
    } else {
        assert(ids.drop_first().contains(x)) by {
            let k = choose|k: int| 0 <= k < ids.len() && ids[k] == x;
            assert(k > 0);
            assert(ids.drop_first()[k - 1] == x);
        }
        let j = first_index(ids.drop_first(), x);
        assert forall|k: int| 0 <= k < j + 1 implies ids[k] != x by {
            if k > 0 { assert(ids[k] == ids.drop_first()[k - 1]); }
        }
        j + 1
    }
}

} // verus!
