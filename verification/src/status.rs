//! Workspace status: counts, per-tree health and knowledge health.
use vstd::prelude::*;
use crate::knowledge::types::{KnowledgeItem, KnowledgeRelation, KnowledgeStatus};
use crate::node::types::{EpistemicStatus, Node};
use crate::output::GraphHealth;
use crate::strutil::{filter_seq, has_id, lemma_filter_step, lemma_take_all};
use crate::tree::types::Tree;
use crate::validate::clr::{find_node, find_node_index};
use crate::validate::dag::acyclic;
use crate::validate::check_dag;

verus! {

/// Health of one tree.
#[derive(Debug, Clone)]
pub struct TreeHealth {
    pub id: String,
    pub name: String,
    pub edge_count: usize,
    pub feedback_edge_count: usize,
    pub valid_dag: bool,
}

/// Knowledge items by status.
#[derive(Debug, Clone)]
pub struct KnowledgeByStatus {
    pub unverified: usize,
    pub verified: usize,
    pub refuted: usize,
    pub superseded: usize,
}

/// Nodes by epistemic status.
#[derive(Debug, Clone)]
pub struct EpistemicCoverage {
    pub fact: usize,
    pub hypothesis: usize,
    pub assumption: usize,
    pub derived: usize,
}

/// Health of the Knowledge Pool.
#[derive(Debug, Clone)]
pub struct KnowledgeHealthData {
    pub total: usize,
    pub unlinked_items: usize,
    pub contradictions: usize,
    pub by_status: KnowledgeByStatus,
    pub epistemic_coverage: EpistemicCoverage,
}

/// Data returned by `status`.
#[derive(Debug, Clone)]
pub struct StatusData {
    pub node_count: usize,
    pub tree_count: usize,
    pub trees: Vec<TreeHealth>,
    pub knowledge_health: Option<KnowledgeHealthData>,
}

/// The number of items with the given status.
pub open spec fn count_status(items: Seq<KnowledgeItem>, s: KnowledgeStatus) -> nat {
    filter_seq(items, |i: KnowledgeItem| i.status == s).len()
}

/// The number of nodes with the given epistemic status.
pub open spec fn count_epistemic(nodes: Seq<Node>, e: EpistemicStatus) -> nat {
    filter_seq(nodes, |n: Node| n.epistemic == e).len()
}

/// A contradicting link to a fact node of the pool.
pub open spec fn contradicts_fact(l: crate::knowledge::types::KnowledgeLink, pool: Seq<Node>) -> bool {
    &&& l.relation == KnowledgeRelation::Contradicts
    &&& find_node(pool, l.target@) matches Some(n) && n.epistemic == EpistemicStatus::Fact
}

/// The number of contradicting links of one item that point to a fact
/// node of the pool.
pub open spec fn fact_contradictions(links: Seq<crate::knowledge::types::KnowledgeLink>, pool: Seq<Node>) -> nat
    decreases links.len(),
{
    if links.len() == 0 {
        0
    } else {
        fact_contradictions(links.drop_last(), pool) + if contradicts_fact(links.last(), pool) { 1nat } else { 0nat }
    }
}

/// Contradictions over the verified items: their contradicting links to
/// fact nodes.
pub open spec fn contradictions(items: Seq<KnowledgeItem>, pool: Seq<Node>) -> nat
    decreases items.len(),
{
    if items.len() == 0 {
        0
    } else {
        contradictions(items.drop_last(), pool) + if items.last().status == KnowledgeStatus::Verified {
            fact_contradictions(items.last().links@, pool)
        } else {
            0
        }
    }
}

/// The contradictions of two runs of items add up.
proof fn lemma_contradictions_concat(a: Seq<KnowledgeItem>, b: Seq<KnowledgeItem>, pool: Seq<Node>)
    ensures contradictions(a + b, pool) == contradictions(a, pool) + contradictions(b, pool),
    decreases b.len(),
{
    if b.len() == 0 {
        assert(a + b =~= a);
    } else {
        lemma_contradictions_concat(a, b.drop_last(), pool);
        assert((a + b).drop_last() =~= a + b.drop_last());
        assert((a + b).last() == b.last());
    }
}

/// The contradicting links of one item to fact nodes, counted.
proof fn lemma_fact_contradictions_filter(links: Seq<crate::knowledge::types::KnowledgeLink>, pool: Seq<Node>)
    ensures
        fact_contradictions(links, pool) == filter_seq(links, |l: crate::knowledge::types::KnowledgeLink|
            l.relation == KnowledgeRelation::Contradicts
            && (find_node(pool, l.target@) matches Some(n) && n.epistemic == EpistemicStatus::Fact)).len(),
    decreases links.len(),
{
    if links.len() > 0 {
        lemma_fact_contradictions_filter(links.drop_last(), pool);
    }
}

/// Only verified items count as contradicting a fact. An item that is not
/// verified (unverified, refuted or superseded) adds nothing to the count,
/// wherever it stands and whatever its links; a verified item adds its
/// links that contradict a fact node of the pool; and with no verified item
/// the count is zero.
pub proof fn law_contradictions_only_verified(a: Seq<KnowledgeItem>, x: KnowledgeItem, b: Seq<KnowledgeItem>, pool: Seq<Node>)
    ensures
        x.status != KnowledgeStatus::Verified ==> contradictions(a + seq![x] + b, pool) == contradictions(a + b, pool),
        x.status == KnowledgeStatus::Verified ==> contradictions(a + seq![x] + b, pool) == contradictions(a + b, pool)
            + filter_seq(x.links@, |l: crate::knowledge::types::KnowledgeLink|
                l.relation == KnowledgeRelation::Contradicts
                && (find_node(pool, l.target@) matches Some(n) && n.epistemic == EpistemicStatus::Fact)).len(),
        (forall|i: int| 0 <= i < a.len() ==> (#[trigger] a[i]).status != KnowledgeStatus::Verified)
            ==> contradictions(a, pool) == 0,
{
    lemma_contradictions_concat(a + seq![x], b, pool);
    lemma_contradictions_concat(a, b, pool);
    assert((a + seq![x]).drop_last() =~= a);
    assert((a + seq![x]).last() == x);
    lemma_fact_contradictions_filter(x.links@, pool);
    lemma_no_verified(a, pool);
}

proof fn lemma_no_verified(a: Seq<KnowledgeItem>, pool: Seq<Node>)
    ensures
        (forall|i: int| 0 <= i < a.len() ==> (#[trigger] a[i]).status != KnowledgeStatus::Verified)
            ==> contradictions(a, pool) == 0,
    decreases a.len(),
{
    if a.len() > 0 {
        lemma_no_verified(a.drop_last(), pool);
        if forall|i: int| 0 <= i < a.len() ==> (#[trigger] a[i]).status != KnowledgeStatus::Verified {
            assert(a.last().status != KnowledgeStatus::Verified);
            assert forall|i: int| 0 <= i < a.len() - 1 implies (#[trigger] a.drop_last()[i]).status != KnowledgeStatus::Verified by {
                assert(a[i].status != KnowledgeStatus::Verified);
            }
        }
    }
}

/// A count that stops at the largest `usize`.
pub open spec fn capped(n: nat) -> usize {
    if n > usize::MAX { usize::MAX } else { n as usize }
}

fn count_items_with(items: &Vec<KnowledgeItem>, s: KnowledgeStatus) -> (r: usize)
    ensures r == count_status(items@, s),
{
    let ghost p = |i: KnowledgeItem| i.status == s;
    let mut n: usize = 0;
    let mut i: usize = 0;
    while i < items.len()
        invariant
            i <= items@.len(),
            p == (|i: KnowledgeItem| i.status == s),
            n == filter_seq(items@.take(i as int), p).len(),
            n <= i,
        decreases items@.len() - i,
    {
        proof { lemma_filter_step(items@, p, i as int); }
        if items[i].status == s {
            n = n + 1;
        }
        i = i + 1;
    }
    proof { lemma_take_all(items@); }
    n
}

fn count_nodes_with(nodes: &Vec<Node>, e: EpistemicStatus) -> (r: usize)
    ensures r == count_epistemic(nodes@, e),
{
    let ghost p = |n: Node| n.epistemic == e;
    let mut n: usize = 0;
    let mut i: usize = 0;
    while i < nodes.len()
        invariant
            i <= nodes@.len(),
            p == (|n: Node| n.epistemic == e),
            n == filter_seq(nodes@.take(i as int), p).len(),
            n <= i,
        decreases nodes@.len() - i,
    {
        proof { lemma_filter_step(nodes@, p, i as int); }
        if nodes[i].epistemic == e {
            n = n + 1;
        }
        i = i + 1;
    }
    proof { lemma_take_all(nodes@); }
    n
}

/// The knowledge health counts: items, items without links, contradictions
/// of facts, items by status and nodes by epistemic status.
pub open spec fn knowledge_health_is(r: KnowledgeHealthData, items: Seq<KnowledgeItem>, pool: Seq<Node>) -> bool {
    &&& r.total == items.len()
    &&& r.unlinked_items == filter_seq(items, |i: KnowledgeItem| i.links@.len() == 0).len()
    &&& r.contradictions == capped(contradictions(items, pool))
    &&& r.by_status.unverified == count_status(items, KnowledgeStatus::Unverified)
    &&& r.by_status.verified == count_status(items, KnowledgeStatus::Verified)
    &&& r.by_status.refuted == count_status(items, KnowledgeStatus::Refuted)
    &&& r.by_status.superseded == count_status(items, KnowledgeStatus::Superseded)
    &&& r.epistemic_coverage.fact == count_epistemic(pool, EpistemicStatus::Fact)
    &&& r.epistemic_coverage.hypothesis == count_epistemic(pool, EpistemicStatus::Hypothesis)
    &&& r.epistemic_coverage.assumption == count_epistemic(pool, EpistemicStatus::Assumption)
    &&& r.epistemic_coverage.derived == count_epistemic(pool, EpistemicStatus::Derived)
}

/// The health of the Knowledge Pool over the items that could be loaded;
/// `pool` are the nodes that could be loaded.
pub fn knowledge_health(items: &Vec<KnowledgeItem>, pool: &Vec<Node>) -> (r: KnowledgeHealthData)
    ensures
        knowledge_health_is(r, items@, pool@),
        (forall|i: int| 0 <= i < items@.len() ==> (#[trigger] items@[i]).status != KnowledgeStatus::Verified)
            ==> r.contradictions == 0,
{
    proof { lemma_no_verified(items@, pool@); }
    let ghost p = |i: KnowledgeItem| i.links@.len() == 0;
    let mut unlinked: usize = 0;
    let mut contra: usize = 0;
    let mut i: usize = 0;
    while i < items.len()
        invariant
            i <= items@.len(),
            p == (|i: KnowledgeItem| i.links@.len() == 0),
            unlinked == filter_seq(items@.take(i as int), p).len(),
            unlinked <= i,
            contra == capped(contradictions(items@.take(i as int), pool@)),
        decreases items@.len() - i,
    {
        proof {
            lemma_filter_step(items@, p, i as int);
            let t = items@.take(i + 1);
            assert(t.drop_last() =~= items@.take(i as int));
            assert(t.last() == items@[i as int]);
        }
        let item = &items[i];
        if item.links.len() == 0 {
            unlinked = unlinked + 1;
        }
        if item.status == KnowledgeStatus::Verified {
            let ghost base = contradictions(items@.take(i as int), pool@);
            let mut j: usize = 0;
            while j < item.links.len()
                invariant
                    j <= item.links@.len(),
                    contra == capped(base + fact_contradictions(item.links@.take(j as int), pool@)),
                decreases item.links@.len() - j,
            {
                proof {
                    let t = item.links@.take(j + 1);
                    assert(t.drop_last() =~= item.links@.take(j as int));
                    assert(t.last() == item.links@[j as int]);
                }
                let link = &item.links[j];
                if link.relation == KnowledgeRelation::Contradicts {
                    match find_node_index(pool, &link.target) {
                        Some(k) => {
                            if pool[k].epistemic == EpistemicStatus::Fact {
                                contra = contra.saturating_add(1);
                            }
                        },
                        None => {},
                    }
                }
                j = j + 1;
            }
            proof { lemma_take_all(item.links@); }
        }
        i = i + 1;
    }
    proof { lemma_take_all(items@); }
    KnowledgeHealthData {
        total: items.len(),
        unlinked_items: unlinked,
        contradictions: contra,
        by_status: KnowledgeByStatus {
            unverified: count_items_with(items, KnowledgeStatus::Unverified),
            verified: count_items_with(items, KnowledgeStatus::Verified),
            refuted: count_items_with(items, KnowledgeStatus::Refuted),
            superseded: count_items_with(items, KnowledgeStatus::Superseded),
        },
        epistemic_coverage: EpistemicCoverage {
            fact: count_nodes_with(pool, EpistemicStatus::Fact),
            hypothesis: count_nodes_with(pool, EpistemicStatus::Hypothesis),
            assumption: count_nodes_with(pool, EpistemicStatus::Assumption),
            derived: count_nodes_with(pool, EpistemicStatus::Derived),
        },
    }
}

/// Some loaded tree references the node.
pub open spec fn referenced(trees: Seq<Tree>, id: Seq<char>) -> bool {
    exists|t: int, k: int| 0 <= t < trees.len() && 0 <= k < trees[t].nodes@.len()
        && (#[trigger] trees[t].nodes@[k]).node_ref@ == id
}

/// The result of `status`.
pub struct StatusReport {
    pub data: StatusData,
    pub graph_health: GraphHealth,
}

fn is_referenced(trees: &Vec<Tree>, id: &String) -> (r: bool)
    ensures r == referenced(trees@, id@),
{
    let mut t: usize = 0;
    while t < trees.len()
        invariant
            t <= trees@.len(),
            forall|a: int, k: int| 0 <= a < t && 0 <= k < trees@[a].nodes@.len() ==> (#[trigger] trees@[a].nodes@[k]).node_ref@ != id@,
        decreases trees@.len() - t,
    {
        let ns = &trees[t].nodes;
        let mut k: usize = 0;
        while k < ns.len()
            invariant
                k <= ns@.len(),
                t < trees@.len(),
                ns@ == trees@[t as int].nodes@,
                forall|b: int| 0 <= b < k ==> (#[trigger] ns@[b]).node_ref@ != id@,
            decreases ns@.len() - k,
        {
            if ns[k].node_ref == *id {
                return true;
            }
            k = k + 1;
        }
        t = t + 1;
    }
    false
}

/// `status` over the listed node IDs, the number of listed trees, the trees
/// that could be loaded, the knowledge items that could be loaded and the
/// nodes that could be loaded: per-tree health, the graph is a DAG when no
/// loaded tree has a cycle, and the orphans are the listed nodes that no
/// loaded tree references.
pub fn status(node_ids: &Vec<String>, tree_count: usize, trees: &Vec<Tree>, items: &Vec<KnowledgeItem>, pool: &Vec<Node>)
    -> (r: StatusReport)
    ensures
        r.data.node_count == node_ids@.len(),
        r.data.tree_count == tree_count,
        r.data.trees@.len() == trees@.len(),
        forall|k: int| 0 <= k < trees@.len() ==> {
            let h = #[trigger] r.data.trees@[k];
            let t = trees@[k];
            &&& h.id == t.id && h.name == t.name
            &&& h.edge_count == t.edges@.len() && h.feedback_edge_count == t.feedback_edges@.len()
            &&& h.valid_dag == acyclic(t.edges@)
        },
        r.graph_health.valid_dag == forall|k: int| 0 <= k < trees@.len() ==> acyclic((#[trigger] trees@[k]).edges@),
        r.graph_health.orphan_nodes_count == filter_seq(node_ids@, |id: String| !referenced(trees@, id@)).len(),
        r.data.knowledge_health matches Some(kh) && knowledge_health_is(kh, items@, pool@),
{
    let mut hs: Vec<TreeHealth> = Vec::new();
    let mut all = true;
    let mut i: usize = 0;
    while i < trees.len()
        invariant
            i <= trees@.len(),
            hs@.len() == i,
            forall|k: int| 0 <= k < i ==> {
                let h = #[trigger] hs@[k];
                let t = trees@[k];
                &&& h.id == t.id && h.name == t.name
                &&& h.edge_count == t.edges@.len() && h.feedback_edge_count == t.feedback_edges@.len()
                &&& h.valid_dag == acyclic(t.edges@)
            },
            all == forall|k: int| 0 <= k < i ==> acyclic((#[trigger] trees@[k]).edges@),
        decreases trees@.len() - i,
    {
        let t = &trees[i];
        let ok = check_dag(&t.edges, t.id.as_str()).is_ok();
        if !ok {
            all = false;
        }
        hs.push(TreeHealth {
            id: t.id.clone(),
            name: t.name.clone(),
            edge_count: t.edges.len(),
            feedback_edge_count: t.feedback_edges.len(),
            valid_dag: ok,
        });
        i = i + 1;
    }
    let ghost p = |id: String| !referenced(trees@, id@);
    let mut orphans: usize = 0;
    let mut j: usize = 0;
    while j < node_ids.len()
        invariant
            j <= node_ids@.len(),
            p == (|id: String| !referenced(trees@, id@)),
            orphans == filter_seq(node_ids@.take(j as int), p).len(),
            orphans <= j,
        decreases node_ids@.len() - j,
    {
        proof { lemma_filter_step(node_ids@, p, j as int); }
        if !is_referenced(trees, &node_ids[j]) {
            orphans = orphans + 1;
        }
        j = j + 1;
    }
    proof { lemma_take_all(node_ids@); }
    let kh = knowledge_health(items, pool);
    StatusReport {
        data: StatusData { node_count: node_ids.len(), tree_count, trees: hs, knowledge_health: Some(kh) },
        graph_health: GraphHealth { valid_dag: all, orphan_nodes_count: orphans },
    }
}

} // verus!
