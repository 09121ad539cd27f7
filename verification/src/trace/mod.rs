//! Tracing causal chains through a tree, and inspecting and finding links.
use vstd::prelude::*;
use crate::knowledge::types::{Confidence, KnowledgeItem, KnowledgeRelation, KnowledgeStatus};
use crate::link::types::{
    clone_edge, edge_views, feedback_views, Edge, EdgeStatus, EdgeView, FeedbackEdgeView, FeedbackLoopType, Logic, Operator,
};
use crate::output::{err_is, not_in_tree_detail, not_in_tree_error, quoted_detail, quoted_error, OutputError};
use crate::path::reach::reaches;
use crate::strutil::{
    cat3, clone_strings, contains_string, filter_seq, has_id, lemma_filter_step, lemma_take_all, owned, sorted_unique,
    strictly_sorted, views,
};
use crate::tree::types::{attached, is_attached, Tree};
use crate::validate::dag::{has_edge, is_walk};
use crate::validate::acyclic::{has_edge_v, is_walk_v, lemma_walk_v_prepend, lemma_walk_v_push, reaches_v};

verus! {

pub open spec fn operator_name(op: Operator) -> Seq<char> {
    match op {
        Operator::Single => "SINGLE"@,
        Operator::And => "AND"@,
        Operator::Or => "OR"@,
        Operator::Mag => "MAG"@,
        Operator::Xor => "XOR"@,
    }
}

pub open spec fn status_name(s: EdgeStatus) -> Seq<char> {
    match s {
        EdgeStatus::Active => "active"@,
        EdgeStatus::Broken => "broken"@,
        EdgeStatus::Superseded => "superseded"@,
        EdgeStatus::NeedsReview => "needs_review"@,
    }
}

pub open spec fn logic_name(l: Logic) -> Seq<char> {
    match l {
        Logic::Sufficiency => "sufficiency"@,
        Logic::Necessity => "necessity"@,
    }
}

pub open spec fn feedback_type_name(t: FeedbackLoopType) -> Seq<char> {
    match t {
        FeedbackLoopType::Positive => "positive"@,
        FeedbackLoopType::Negative => "negative"@,
    }
}

/// The name of an operator.
pub fn operator_str(op: Operator) -> (r: &'static str)
    ensures r@ == operator_name(op),
{
    match op {
        Operator::Single => "SINGLE",
        Operator::And => "AND",
        Operator::Or => "OR",
        Operator::Mag => "MAG",
        Operator::Xor => "XOR",
    }
}

/// The name of an edge status.
pub fn status_str(s: EdgeStatus) -> (r: &'static str)
    ensures r@ == status_name(s),
{
    match s {
        EdgeStatus::Active => "active",
        EdgeStatus::Broken => "broken",
        EdgeStatus::Superseded => "superseded",
        EdgeStatus::NeedsReview => "needs_review",
    }
}

/// The name of an edge logic.
pub fn logic_str(l: Logic) -> (r: &'static str)
    ensures r@ == logic_name(l),
{
    match l {
        Logic::Sufficiency => "sufficiency",
        Logic::Necessity => "necessity",
    }
}

/// The name of a feedback loop type.
pub fn feedback_type_str(t: FeedbackLoopType) -> (r: &'static str)
    ensures r@ == feedback_type_name(t),
{
    match t {
        FeedbackLoopType::Positive => "positive",
        FeedbackLoopType::Negative => "negative",
    }
}

/// Summary of a link encountered during trace traversal.
#[derive(Debug, Clone)]
pub struct LinkSummary {
    pub id: String,
    pub status: String,
    pub operator: String,
}

/// Knowledge item summary attached to a traced node.
#[derive(Debug, Clone)]
pub struct KnowledgeSummary {
    pub id: String,
    pub relation: String,
    pub status: String,
    pub confidence: Option<String>,
}

/// Single entry in the trace chain.
#[derive(Debug, Clone)]
pub struct TraceEntry {
    pub node: String,
    pub link_to_next: Option<LinkSummary>,
    pub knowledge: Option<Vec<KnowledgeSummary>>,
}

/// Health summary of the traced chain.
#[derive(Debug, Clone)]
pub struct ChainHealth {
    pub fully_connected: bool,
    pub broken_links: Vec<String>,
    pub superseded_links: Vec<String>,
}

/// Feedback edge encountered during trace.
#[derive(Debug, Clone)]
pub struct FeedbackSummary {
    pub id: String,
    pub from: String,
    pub to: String,
    pub loop_type: String,
}

/// Full output data for `ltp trace`.
#[derive(Debug, Clone)]
pub struct TraceData {
    pub node_id: String,
    pub tree_id: String,
    pub direction: String,
    pub depth: Option<usize>,
    pub chain: Vec<TraceEntry>,
    pub feedback_loops: Vec<FeedbackSummary>,
    pub chain_health: ChainHealth,
}

/// Node label reference for link inspect.
#[derive(Debug, Clone)]
pub struct NodeLabel {
    pub id: String,
    pub label: String,
}

/// Assumption detail for link inspect.
#[derive(Debug, Clone)]
pub struct AssumptionDetail {
    pub id: String,
    pub text: String,
    pub status: String,
}

/// Full output data for `ltp link inspect`. The weight is held as the
/// IEEE-754 bit pattern of the number.
#[derive(Debug, Clone)]
pub struct LinkInspectData {
    pub id: String,
    pub from: Vec<String>,
    pub from_labels: Vec<NodeLabel>,
    pub to: String,
    pub to_label: String,
    pub operator: String,
    pub weight: Option<u64>,
    pub status: String,
    pub logic: String,
    pub assumptions: Vec<AssumptionDetail>,
}

/// Single match in `ltp link find`.
#[derive(Debug, Clone)]
pub struct LinkFindEntry {
    pub id: String,
    pub operator: String,
    pub status: String,
}

/// Full output data for `ltp link find`.
#[derive(Debug, Clone)]
pub struct LinkFindData {
    pub from: String,
    pub to: String,
    pub tree_id: String,
    pub links: Vec<LinkFindEntry>,
}

/// The edges of the branches, in order.
pub open spec fn branch_edges(bs: Seq<crate::tree::types::NbrBranchView>) -> Seq<EdgeView>
    decreases bs.len(),
{
    if bs.len() == 0 { Seq::empty() } else { branch_edges(bs.drop_last()) + bs.last().edges }
}

/// The edges a trace follows: the tree's, then (when asked) those of its
/// negative branches.
pub open spec fn trace_edge_seq(t: Tree, include_nbr: bool) -> Seq<EdgeView> {
    if include_nbr {
        t@.edges + branch_edges(t@.nbr_branches)
    } else {
        t@.edges
    }
}

/// The edges a trace follows.
pub fn trace_edges(t: &Tree, include_nbr: bool) -> (r: Vec<Edge>)
    ensures edge_views(r@) == trace_edge_seq(*t, include_nbr),
{
    let mut r = crate::link::types::clone_edges(&t.edges);
    if include_nbr {
        let ghost bs = t@.nbr_branches;
        let mut b: usize = 0;
        while b < t.nbr_branches.len()
            invariant
                b <= t.nbr_branches@.len(),
                bs == t@.nbr_branches,
                edge_views(r@) == t@.edges + branch_edges(bs.take(b as int)),
            decreases t.nbr_branches@.len() - b,
        {
            let br = &t.nbr_branches[b];
            let ghost base = r@;
            let mut k: usize = 0;
            while k < br.edges.len()
                invariant
                    k <= br.edges@.len(),
                    edge_views(r@) == edge_views(base) + edge_views(br.edges@).take(k as int),
                decreases br.edges@.len() - k,
            {
                let ghost pre = r@;
                r.push(clone_edge(&br.edges[k]));
                proof {
                    assert(edge_views(r@) =~= edge_views(pre).push(br.edges@[k as int]@));
                    assert(edge_views(br.edges@).take(k + 1) =~= edge_views(br.edges@).take(k as int).push(br.edges@[k as int]@));
                }
                k = k + 1;
            }
            proof {
                assert(edge_views(br.edges@).take(br.edges@.len() as int) =~= edge_views(br.edges@));
                assert(bs.take(b + 1).drop_last() =~= bs.take(b as int));
                assert(bs.take(b + 1).last() == bs[b as int]);
                assert(bs[b as int].edges == edge_views(br.edges@));
                assert(edge_views(r@) =~= t@.edges + branch_edges(bs.take(b + 1)));
            }
            b = b + 1;
        }
        proof { assert(bs.take(bs.len() as int) =~= bs); }
    }
    r
}

} // verus!

verus! {

/// The edge is followed from `x`: downstream, `x` is among its causes;
/// upstream, `x` is its effect.
pub open spec fn incident_v(e: EdgeView, x: Seq<char>, down: bool) -> bool {
    if down { e.from.contains(x) } else { e.to == x }
}

/// `x` is reached by the trace from `start`.
pub open spec fn traces_to(ev: Seq<EdgeView>, start: Seq<char>, x: Seq<char>, down: bool) -> bool {
    if down { reaches_v(ev, start, x) } else { reaches_v(ev, x, start) }
}

/// The summary of a link: its ID, status and operator names.
pub open spec fn summary_v(e: EdgeView) -> (Seq<char>, Seq<char>, Seq<char>) {
    (e.id, status_name(e.status), operator_name(e.operator))
}

pub open spec fn link_v(l: Option<LinkSummary>) -> Option<(Seq<char>, Seq<char>, Seq<char>)> {
    match l {
        Some(s) => Some((s.id@, s.status@, s.operator@)),
        None => None,
    }
}

/// The chain holds an entry for `x`.
pub open spec fn in_chain(chain: Seq<TraceEntry>, x: Seq<char>) -> bool {
    exists|c: int| 0 <= c < chain.len() && #[trigger] chain[c].node@ == x
}

fn summary_of_edge(e: &Edge) -> (r: LinkSummary)
    ensures link_v(Some(r)) == Some(summary_v(e@)),
{
    LinkSummary { id: e.id.clone(), status: owned(status_str(e.status)), operator: owned(operator_str(e.operator)) }
}

fn is_incident(e: &Edge, x: &String, down: bool) -> (r: bool)
    ensures r == incident_v(e@, x@, down),
{
    if down {
        proof { crate::strutil::lemma_has_id_views(e.from@, x@); }
        contains_string(&e.from, x)
    } else {
        e.to == *x
    }
}

/// Every end of every edge, with repetitions.
pub open spec fn all_ends(ev: Seq<EdgeView>) -> Seq<Seq<char>>
    decreases ev.len(),
{
    if ev.len() == 0 { Seq::empty() } else { all_ends(ev.drop_last()) + ev.last().from + seq![ev.last().to] }
}

proof fn lemma_all_ends(ev: Seq<EdgeView>, i: int)
    requires 0 <= i < ev.len(),
    ensures
        all_ends(ev).contains(ev[i].to),
        forall|j: int| 0 <= j < ev[i].from.len() ==> all_ends(ev).contains(#[trigger] ev[i].from[j]),
    decreases ev.len(),
{
    let a = all_ends(ev.drop_last());
    let l = ev.last();
    if i < ev.len() - 1 {
        lemma_all_ends(ev.drop_last(), i);
        assert(ev.drop_last()[i] == ev[i]);
        let k = choose|k: int| 0 <= k < a.len() && a[k] == ev[i].to;
        assert(all_ends(ev)[k] == ev[i].to);
        assert forall|j: int| 0 <= j < ev[i].from.len() implies all_ends(ev).contains(#[trigger] ev[i].from[j]) by {
            assert(a.contains(ev[i].from[j]));
            let k2 = choose|k2: int| 0 <= k2 < a.len() && a[k2] == ev[i].from[j];
            assert(all_ends(ev)[k2] == ev[i].from[j]);
        }
    } else {
        assert(all_ends(ev)[all_ends(ev).len() - 1] == l.to);
        assert forall|j: int| 0 <= j < ev[i].from.len() implies all_ends(ev).contains(#[trigger] ev[i].from[j]) by {
            assert(all_ends(ev)[a.len() + j] == l.from[j]);
        }
    }
}

/// A sequence without repetitions drawn from `b` is no longer than `b`.
pub(crate) proof fn lemma_pigeon(a: Seq<Seq<char>>, b: Seq<Seq<char>>)
    requires
        a.no_duplicates(),
        forall|x: Seq<char>| a.contains(x) ==> b.contains(x),
    ensures a.len() <= b.len(),
{
    a.unique_seq_to_set();
    b.lemma_cardinality_of_set();
    vstd::seq_lib::seq_to_set_is_finite(b);
    assert(a.to_set().subset_of(b.to_set()));
    vstd::set_lib::lemma_len_subset(a.to_set(), b.to_set());
}

/// A chain entry as plain values: its node and its link's summary.
pub open spec fn entry_v(e: TraceEntry) -> (Seq<char>, Option<(Seq<char>, Seq<char>, Seq<char>)>) {
    (e.node@, link_v(e.link_to_next))
}

pub open spec fn chain_v(chain: Seq<TraceEntry>) -> Seq<(Seq<char>, Option<(Seq<char>, Seq<char>, Seq<char>)>)> {
    chain.map_values(|e: TraceEntry| entry_v(e))
}

/// Depths as integers.
pub open spec fn depths_v(qd: Seq<usize>) -> Seq<int> {
    qd.map_values(|d: usize| d as int)
}

/// The queue after meeting `x` from a node at depth `d`: `x` joins it at
/// depth `d + 1` unless it is there already.
pub open spec fn enqueue_spec(qn: Seq<Seq<char>>, qd: Seq<int>, x: Seq<char>, d: int) -> (Seq<Seq<char>>, Seq<int>) {
    if qn.contains(x) { (qn, qd) } else { (qn.push(x), qd.push(d + 1)) }
}

/// The queue after meeting the first `n` of `xs`, in order.
pub open spec fn enqueue_all(qn: Seq<Seq<char>>, qd: Seq<int>, xs: Seq<Seq<char>>, d: int, n: int) -> (Seq<Seq<char>>, Seq<int>)
    decreases n,
{
    if n <= 0 {
        (qn, qd)
    } else {
        let p = enqueue_all(qn, qd, xs, d, n - 1);
        enqueue_spec(p.0, p.1, xs[n - 1], d)
    }
}

/// The queue after following edge `e`: its effect downstream, its causes
/// (in order) upstream.
pub open spec fn follow_spec(e: EdgeView, down: bool, qn: Seq<Seq<char>>, qd: Seq<int>, d: int) -> (Seq<Seq<char>>, Seq<int>) {
    if down { enqueue_spec(qn, qd, e.to, d) } else { enqueue_all(qn, qd, e.from, d, e.from.len() as int) }
}

/// Queue and chain after following, from `u` at depth `d`, the incident
/// edges among the first `i`: an entry per edge, in edge order.
pub open spec fn expand_from(ev: Seq<EdgeView>, down: bool, u: Seq<char>, d: int, qn: Seq<Seq<char>>, qd: Seq<int>,
    ch: Seq<(Seq<char>, Option<(Seq<char>, Seq<char>, Seq<char>)>)>, i: int)
    -> (Seq<Seq<char>>, Seq<int>, Seq<(Seq<char>, Option<(Seq<char>, Seq<char>, Seq<char>)>)>)
    decreases i,
{
    if i <= 0 {
        (qn, qd, ch)
    } else {
        let p = expand_from(ev, down, u, d, qn, qd, ch, i - 1);
        let e = ev[i - 1];
        if incident_v(e, u, down) {
            let q = follow_spec(e, down, p.0, p.1, d);
            (q.0, q.1, p.2.push((u, Some(summary_v(e)))))
        } else {
            p
        }
    }
}

/// Taking `u` off the queue below the depth limit: every incident edge is
/// followed, or a terminal entry is made when there is none.
pub open spec fn expand_spec(ev: Seq<EdgeView>, down: bool, u: Seq<char>, d: int, qn: Seq<Seq<char>>, qd: Seq<int>,
    ch: Seq<(Seq<char>, Option<(Seq<char>, Seq<char>, Seq<char>)>)>)
    -> (Seq<Seq<char>>, Seq<int>, Seq<(Seq<char>, Option<(Seq<char>, Seq<char>, Seq<char>)>)>)
{
    let p = expand_from(ev, down, u, d, qn, qd, ch, ev.len() as int);
    if p.2.len() == ch.len() { (p.0, p.1, p.2.push((u, None))) } else { p }
}

/// The chain of the breadth-first walk from the queue position `head` on
/// (for at most `fuel` more steps): a node at the depth limit is a
/// terminal entry, any other is expanded.
pub open spec fn bfs_from(ev: Seq<EdgeView>, down: bool, max: int, qn: Seq<Seq<char>>, qd: Seq<int>,
    ch: Seq<(Seq<char>, Option<(Seq<char>, Seq<char>, Seq<char>)>)>, head: int, fuel: nat)
    -> Seq<(Seq<char>, Option<(Seq<char>, Seq<char>, Seq<char>)>)>
    decreases fuel,
{
    if fuel == 0 || head < 0 || head >= qn.len() {
        ch
    } else if qd[head] >= max {
        bfs_from(ev, down, max, qn, qd, ch.push((qn[head], None)), head + 1, (fuel - 1) as nat)
    } else {
        let p = expand_spec(ev, down, qn[head], qd[head], qn, qd, ch);
        bfs_from(ev, down, max, p.0, p.1, p.2, head + 1, (fuel - 1) as nat)
    }
}

/// The chain of a trace from `start` along `ev`, down to depth `max`
/// (`usize::MAX` when unlimited). The walk meets at most every end of
/// every edge and the start, so that many steps always complete it.
pub open spec fn trace_chain(ev: Seq<EdgeView>, down: bool, max: int, start: Seq<char>)
    -> Seq<(Seq<char>, Option<(Seq<char>, Seq<char>, Seq<char>)>)>
{
    bfs_from(ev, down, max, seq![start], seq![0int], Seq::empty(), 0, (all_ends(ev).len() + 2) as nat)
}

/// Queues `x` at depth `d + 1` unless it was met already.
fn enqueue(qn: &mut Vec<String>, qd: &mut Vec<usize>, x: &String, d: usize,
    Ghost(ev): Ghost<Seq<EdgeView>>, Ghost(start): Ghost<Seq<char>>, Ghost(down): Ghost<bool>, Ghost(ends): Ghost<Seq<Seq<char>>>)
    requires
        views(old(qn)@).no_duplicates(),
        ends.contains(x@),
        forall|k: int| 0 <= k < old(qn)@.len() ==> ends.contains(#[trigger] old(qn)@[k]@),
        old(qn)@.len() == old(qd)@.len(),
        d < usize::MAX,
        traces_to(ev, start, x@, down),
        forall|k: int| 0 <= k < old(qn)@.len() ==> traces_to(ev, start, #[trigger] old(qn)@[k]@, down),
    ensures
        final(qn)@.len() == final(qd)@.len(),
        final(qn)@.len() >= old(qn)@.len(),
        forall|k: int| 0 <= k < old(qn)@.len() ==> final(qn)@[k] == old(qn)@[k] && final(qd)@[k] == old(qd)@[k],
        forall|k: int| old(qn)@.len() <= k < final(qn)@.len() ==> final(qd)@[k] == d + 1,
        forall|k: int| 0 <= k < final(qn)@.len() ==> traces_to(ev, start, #[trigger] final(qn)@[k]@, down),
        has_id(final(qn)@, x@),
        forall|y: Seq<char>| has_id(old(qn)@, y) ==> has_id(final(qn)@, y),
        views(final(qn)@).no_duplicates(),
        forall|k: int| 0 <= k < final(qn)@.len() ==> ends.contains(#[trigger] final(qn)@[k]@),
        views(final(qn)@) == enqueue_spec(views(old(qn)@), depths_v(old(qd)@), x@, d as int).0,
        depths_v(final(qd)@) == enqueue_spec(views(old(qn)@), depths_v(old(qd)@), x@, d as int).1,
{
    let ghost pre = qn@;
    let ghost pre_d = qd@;
    proof { crate::strutil::lemma_has_id_views(qn@, x@); }
    if !contains_string(qn, x) {
        qn.push(x.clone());
        qd.push(d + 1);
        proof {
            assert(depths_v(qd@) =~= depths_v(pre_d).push(d + 1));
            assert(qn@[pre.len() as int]@ == x@);
            assert forall|k: int| 0 <= k < qn@.len() implies traces_to(ev, start, #[trigger] qn@[k]@, down) by {
                if k < pre.len() { assert(qn@[k] == pre[k]); }
            }
            assert forall|k: int| 0 <= k < qn@.len() implies ends.contains(#[trigger] qn@[k]@) by {
                if k < pre.len() { assert(qn@[k] == pre[k]); }
            }
            assert(views(qn@) =~= views(pre).push(x@));
            assert forall|a: int, b: int| 0 <= a < views(qn@).len() && 0 <= b < views(qn@).len() && a != b
                implies views(qn@)[a] != views(qn@)[b] by {
                if a == pre.len() { assert(views(qn@)[b] == pre[b]@); }
                if b == pre.len() { assert(views(qn@)[a] == pre[a]@); }
            }
        }
    }
    proof {
        assert forall|y: Seq<char>| has_id(pre, y) implies has_id(qn@, y) by {
            let k = choose|k: int| 0 <= k < pre.len() && #[trigger] pre[k]@ == y;
            assert(qn@[k] == pre[k]);
        }
    }
}

/// The effect of an edge followed downstream from `u` is reached.
proof fn lemma_down_step(ev: Seq<EdgeView>, start: Seq<char>, u: Seq<char>, i: int)
    requires 0 <= i < ev.len(), incident_v(ev[i], u, true), traces_to(ev, start, u, true),
    ensures traces_to(ev, start, ev[i].to, true),
{
    let p = choose|p: Seq<Seq<char>>| #[trigger] is_walk_v(ev, p) && p.len() >= 1 && p[0] == start && p[p.len() - 1] == u;
    assert(has_edge_v(ev, u, ev[i].to)) by {
        let j = choose|j: int| 0 <= j < ev[i].from.len() && ev[i].from[j] == u;
    }
    lemma_walk_v_push(ev, p, ev[i].to);
    assert(p.push(ev[i].to)[p.push(ev[i].to).len() - 1] == ev[i].to);
}

/// Each cause of an edge followed upstream from `u` is reached.
proof fn lemma_up_step(ev: Seq<EdgeView>, start: Seq<char>, u: Seq<char>, i: int, j: int)
    requires 0 <= i < ev.len(), 0 <= j < ev[i].from.len(), incident_v(ev[i], u, false), traces_to(ev, start, u, false),
    ensures traces_to(ev, start, ev[i].from[j], false),
{
    let f = ev[i].from[j];
    let p = choose|p: Seq<Seq<char>>| #[trigger] is_walk_v(ev, p) && p.len() >= 1 && p[0] == u && p[p.len() - 1] == start;
    assert(has_edge_v(ev, f, u));
    lemma_walk_v_prepend(ev, f, p);
    let q = seq![f] + p;
    assert(q[0] == f && q[q.len() - 1] == start);
}

/// Queues what an edge followed from `u` leads to.
fn follow(e: &Edge, down: bool, d: usize, qn: &mut Vec<String>, qd: &mut Vec<usize>,
    Ghost(ev): Ghost<Seq<EdgeView>>, Ghost(i): Ghost<int>, Ghost(u): Ghost<Seq<char>>, Ghost(start): Ghost<Seq<char>>,
    Ghost(ends): Ghost<Seq<Seq<char>>>)
    requires
        views(old(qn)@).no_duplicates(),
        ends.contains(e@.to),
        forall|j: int| 0 <= j < e@.from.len() ==> ends.contains(#[trigger] e@.from[j]),
        forall|k: int| 0 <= k < old(qn)@.len() ==> ends.contains(#[trigger] old(qn)@[k]@),
        0 <= i < ev.len(),
        ev[i] == e@,
        incident_v(e@, u, down),
        traces_to(ev, start, u, down),
        old(qn)@.len() == old(qd)@.len(),
        d < usize::MAX,
        forall|k: int| 0 <= k < old(qn)@.len() ==> traces_to(ev, start, #[trigger] old(qn)@[k]@, down),
    ensures
        final(qn)@.len() == final(qd)@.len(),
        final(qn)@.len() >= old(qn)@.len(),
        forall|k: int| 0 <= k < old(qn)@.len() ==> final(qn)@[k] == old(qn)@[k] && final(qd)@[k] == old(qd)@[k],
        forall|k: int| old(qn)@.len() <= k < final(qn)@.len() ==> final(qd)@[k] == d + 1,
        forall|k: int| 0 <= k < final(qn)@.len() ==> traces_to(ev, start, #[trigger] final(qn)@[k]@, down),
        forall|y: Seq<char>| has_id(old(qn)@, y) ==> has_id(final(qn)@, y),
        down ==> has_id(final(qn)@, e@.to),
        !down ==> forall|j: int| 0 <= j < e@.from.len() ==> has_id(final(qn)@, #[trigger] e@.from[j]),
        views(final(qn)@).no_duplicates(),
        forall|k: int| 0 <= k < final(qn)@.len() ==> ends.contains(#[trigger] final(qn)@[k]@),
        views(final(qn)@) == follow_spec(e@, down, views(old(qn)@), depths_v(old(qd)@), d as int).0,
        depths_v(final(qd)@) == follow_spec(e@, down, views(old(qn)@), depths_v(old(qd)@), d as int).1,
{
    if down {
        proof { lemma_down_step(ev, start, u, i); }
        enqueue(qn, qd, &e.to, d, Ghost(ev), Ghost(start), Ghost(down), Ghost(ends));
    } else {
        let ghost q0 = qn@;
        let ghost d0 = qd@;
        let mut j: usize = 0;
        while j < e.from.len()
            invariant
                j <= e.from@.len(),
                !down,
                0 <= i < ev.len(),
                ev[i] == e@,
                incident_v(e@, u, down),
                traces_to(ev, start, u, down),
                d < usize::MAX,
                qn@.len() == qd@.len(),
                qn@.len() >= q0.len(),
                forall|k: int| 0 <= k < q0.len() ==> qn@[k] == q0[k] && qd@[k] == d0[k],
                forall|k: int| q0.len() <= k < qn@.len() ==> qd@[k] == d + 1,
                forall|k: int| 0 <= k < qn@.len() ==> traces_to(ev, start, #[trigger] qn@[k]@, down),
                forall|y: Seq<char>| has_id(q0, y) ==> has_id(qn@, y),
                forall|q: int| 0 <= q < j ==> has_id(qn@, #[trigger] e@.from[q]),
                views(qn@).no_duplicates(),
                forall|j2: int| 0 <= j2 < e@.from.len() ==> ends.contains(#[trigger] e@.from[j2]),
                forall|k: int| 0 <= k < qn@.len() ==> ends.contains(#[trigger] qn@[k]@),
                views(qn@) == enqueue_all(views(q0), depths_v(d0), e@.from, d as int, j as int).0,
                depths_v(qd@) == enqueue_all(views(q0), depths_v(d0), e@.from, d as int, j as int).1,
            decreases e.from@.len() - j,
        {
            proof { lemma_up_step(ev, start, u, i, j as int); }
            let ghost before = qn@;
            let ghost bd = qd@;
            enqueue(qn, qd, &e.from[j], d, Ghost(ev), Ghost(start), Ghost(down), Ghost(ends));
            proof {
                assert(e.from@[j as int]@ == e@.from[j as int]);
                assert forall|q: int| 0 <= q < j + 1 implies has_id(qn@, #[trigger] e@.from[q]) by {
                    if q < j { assert(has_id(before, e@.from[q])); }
                }
                assert forall|k: int| q0.len() <= k < qn@.len() implies qd@[k] == d + 1 by {
                    if k < before.len() { assert(qd@[k] == bd[k]); }
                }
            }
            j = j + 1;
        }
    }
}

/// Follows every edge of `all` incident to `u`: an entry per edge (or one
/// terminal entry when there is none) and the newly met nodes queued at
/// depth `d + 1`.
fn expand(all: &Vec<Edge>, down: bool, u: &String, d: usize, qn: &mut Vec<String>, qd: &mut Vec<usize>,
    chain: &mut Vec<TraceEntry>, Ghost(start): Ghost<Seq<char>>, Ghost(ends): Ghost<Seq<Seq<char>>>)
    requires
        ends == all_ends(edge_views(all@)).push(start),
        views(old(qn)@).no_duplicates(),
        forall|k: int| 0 <= k < old(qn)@.len() ==> ends.contains(#[trigger] old(qn)@[k]@),
        old(qn)@.len() == old(qd)@.len(),
        d < usize::MAX,
        traces_to(edge_views(all@), start, u@, down),
        forall|k: int| 0 <= k < old(qn)@.len() ==> traces_to(edge_views(all@), start, #[trigger] old(qn)@[k]@, down),
    ensures
        final(qn)@.len() == final(qd)@.len(),
        final(qn)@.len() >= old(qn)@.len(),
        forall|k: int| 0 <= k < old(qn)@.len() ==> final(qn)@[k] == old(qn)@[k] && final(qd)@[k] == old(qd)@[k],
        forall|k: int| old(qn)@.len() <= k < final(qn)@.len() ==> final(qd)@[k] == d + 1,
        forall|k: int| 0 <= k < final(qn)@.len() ==> traces_to(edge_views(all@), start, #[trigger] final(qn)@[k]@, down),
        forall|i: int| 0 <= i < all@.len() && incident_v(all@[i]@, u@, down) ==> {
            &&& down ==> has_id(final(qn)@, all@[i]@.to)
            &&& !down ==> forall|j: int| 0 <= j < all@[i]@.from.len() ==> has_id(final(qn)@, #[trigger] all@[i]@.from[j])
            &&& exists|c: int| old(chain)@.len() <= c < final(chain)@.len() && #[trigger] final(chain)@[c].node@ == u@
                && link_v(final(chain)@[c].link_to_next) == Some(summary_v(all@[i]@))
        },
        final(chain)@.len() > old(chain)@.len(),
        forall|c: int| 0 <= c < old(chain)@.len() ==> final(chain)@[c] == old(chain)@[c],
        forall|c: int| old(chain)@.len() <= c < final(chain)@.len() ==> (#[trigger] final(chain)@[c]).node@ == u@,
        forall|c: int| old(chain)@.len() <= c < final(chain)@.len() ==> (#[trigger] final(chain)@[c]).knowledge is None,
        forall|c: int| old(chain)@.len() <= c < final(chain)@.len() && (#[trigger] final(chain)@[c]).link_to_next is Some ==>
            exists|i: int| 0 <= i < all@.len() && incident_v(all@[i]@, u@, down)
                && link_v(final(chain)@[c].link_to_next) == Some(summary_v(#[trigger] all@[i]@)),
        views(final(qn)@).no_duplicates(),
        forall|k: int| 0 <= k < final(qn)@.len() ==> ends.contains(#[trigger] final(qn)@[k]@),
        views(final(qn)@) == expand_spec(edge_views(all@), down, u@, d as int, views(old(qn)@), depths_v(old(qd)@), chain_v(old(chain)@)).0,
        depths_v(final(qd)@) == expand_spec(edge_views(all@), down, u@, d as int, views(old(qn)@), depths_v(old(qd)@), chain_v(old(chain)@)).1,
        chain_v(final(chain)@) == expand_spec(edge_views(all@), down, u@, d as int, views(old(qn)@), depths_v(old(qd)@), chain_v(old(chain)@)).2,
{
    let ghost ev = edge_views(all@);
    let ghost q0 = qn@;
    let ghost d0 = qd@;
    let ghost c0 = chain@;
    let mut any = false;
    let mut i: usize = 0;
    while i < all.len()
        invariant
            i <= all@.len(),
            ev == edge_views(all@),
            qn@.len() == qd@.len(),
            qn@.len() >= q0.len(),
            q0 == old(qn)@, d0 == old(qd)@, c0 == old(chain)@,
            d < usize::MAX,
            ends == all_ends(ev).push(start),
            views(qn@).no_duplicates(),
            forall|k: int| 0 <= k < qn@.len() ==> ends.contains(#[trigger] qn@[k]@),
            traces_to(ev, start, u@, down),
            forall|k: int| 0 <= k < q0.len() ==> qn@[k] == q0[k] && qd@[k] == d0[k],
            forall|k: int| q0.len() <= k < qn@.len() ==> qd@[k] == d + 1,
            forall|k: int| 0 <= k < qn@.len() ==> traces_to(ev, start, #[trigger] qn@[k]@, down),
            forall|i2: int| 0 <= i2 < i && incident_v(all@[i2]@, u@, down) ==> {
                &&& down ==> has_id(qn@, all@[i2]@.to)
                &&& !down ==> forall|j: int| 0 <= j < all@[i2]@.from.len() ==> has_id(qn@, #[trigger] all@[i2]@.from[j])
                &&& exists|c: int| c0.len() <= c < chain@.len() && #[trigger] chain@[c].node@ == u@
                    && link_v(chain@[c].link_to_next) == Some(summary_v(all@[i2]@))
            },
            any ==> chain@.len() > c0.len(),
            !any ==> chain@.len() == c0.len(),
            forall|c: int| 0 <= c < c0.len() ==> chain@[c] == c0[c],
            forall|c: int| c0.len() <= c < chain@.len() ==> (#[trigger] chain@[c]).node@ == u@,
            forall|c: int| c0.len() <= c < chain@.len() ==> (#[trigger] chain@[c]).knowledge is None,
            forall|c: int| c0.len() <= c < chain@.len() && (#[trigger] chain@[c]).link_to_next is Some ==>
                exists|i2: int| 0 <= i2 < all@.len() && incident_v(all@[i2]@, u@, down)
                    && link_v(chain@[c].link_to_next) == Some(summary_v(#[trigger] all@[i2]@)),
            views(qn@) == expand_from(ev, down, u@, d as int, views(q0), depths_v(d0), chain_v(c0), i as int).0,
            depths_v(qd@) == expand_from(ev, down, u@, d as int, views(q0), depths_v(d0), chain_v(c0), i as int).1,
            chain_v(chain@) == expand_from(ev, down, u@, d as int, views(q0), depths_v(d0), chain_v(c0), i as int).2,
        decreases all@.len() - i,
    {
        let e = &all[i];
        proof { assert(ev[i as int] == e@); }
        if is_incident(e, u, down) {
            any = true;
            let ghost pre_chain = chain@;
            let ghost pre_q = qn@;
            let ghost pre_d = qd@;
            let summary = summary_of_edge(e);
            chain.push(TraceEntry { node: u.clone(), link_to_next: Some(summary), knowledge: None });
            proof {
                assert(chain_v(chain@) =~= chain_v(pre_chain).push((u@, Some(summary_v(e@)))));
                lemma_all_ends(ev, i as int);
                assert(ev[i as int] == e@);
                let a = all_ends(ev);
                let k = choose|k: int| 0 <= k < a.len() && a[k] == e@.to;
                assert(ends[k] == e@.to);
                assert forall|j: int| 0 <= j < e@.from.len() implies ends.contains(#[trigger] e@.from[j]) by {
                    assert(a.contains(e@.from[j]));
                    let k2 = choose|k2: int| 0 <= k2 < a.len() && a[k2] == e@.from[j];
                    assert(ends[k2] == e@.from[j]);
                }
            }
            follow(e, down, d, qn, qd, Ghost(ev), Ghost(i as int), Ghost(u@), Ghost(start), Ghost(ends));
            proof {
                let last = chain@.len() - 1;
                assert(chain@[last].node@ == u@);
                assert forall|k: int| q0.len() <= k < qn@.len() implies qd@[k] == d + 1 by {
                    if k < pre_q.len() { assert(qd@[k] == pre_d[k]); }
                }
                assert forall|i2: int| 0 <= i2 < i + 1 && incident_v(all@[i2]@, u@, down) implies {
                    &&& down ==> has_id(qn@, all@[i2]@.to)
                    &&& !down ==> forall|j: int| 0 <= j < all@[i2]@.from.len() ==> has_id(qn@, #[trigger] all@[i2]@.from[j])
                    &&& exists|c: int| c0.len() <= c < chain@.len() && #[trigger] chain@[c].node@ == u@
                        && link_v(chain@[c].link_to_next) == Some(summary_v(all@[i2]@))
                } by {
                    if i2 == i {
                        assert(chain@[last].node@ == u@);
                    } else {
                        if down { assert(has_id(pre_q, all@[i2]@.to)); }
                        if !down {
                            assert forall|j: int| 0 <= j < all@[i2]@.from.len() implies has_id(qn@, #[trigger] all@[i2]@.from[j]) by {
                                assert(has_id(pre_q, all@[i2]@.from[j]));
                            }
                        }
                        let c = choose|c: int| c0.len() <= c < pre_chain.len() && #[trigger] pre_chain[c].node@ == u@
                            && link_v(pre_chain[c].link_to_next) == Some(summary_v(all@[i2]@));
                        assert(chain@[c] == pre_chain[c]);
                    }
                }
                assert forall|c: int| c0.len() <= c < chain@.len() && (#[trigger] chain@[c]).link_to_next is Some implies
                    exists|i3: int| 0 <= i3 < all@.len() && incident_v(all@[i3]@, u@, down)
                        && link_v(chain@[c].link_to_next) == Some(summary_v(#[trigger] all@[i3]@)) by {
                    if c == last {
                        assert(incident_v(all@[i as int]@, u@, down));
                    } else {
                        assert(chain@[c] == pre_chain[c]);
                    }
                }
            }
        }
        i = i + 1;
    }
    if !any {
        let ghost pre_chain = chain@;
        chain.push(TraceEntry { node: u.clone(), link_to_next: None, knowledge: None });
        proof { assert(chain_v(chain@) =~= chain_v(pre_chain).push((u@, None))); }
    }
}

} // verus!

verus! {

/// The entry's link has this status name and ID.
pub open spec fn link_has(e: TraceEntry, status: Seq<char>, id: Seq<char>) -> bool {
    match link_v(e.link_to_next) {
        Some(l) => l.1 == status && l.0 == id,
        None => false,
    }
}

/// IDs of the chain's links with the given status name.
pub open spec fn links_with_status(chain: Seq<TraceEntry>, status: Seq<char>, id: Seq<char>) -> bool {
    exists|c: int| 0 <= c < chain.len() && #[trigger] link_has(chain[c], status, id)
}

/// The IDs of the chain's links with the given status, sorted, each once.
fn chain_links_with(chain: &Vec<TraceEntry>, status: &str) -> (r: Vec<String>)
    ensures
        strictly_sorted(r@),
        forall|id: Seq<char>| has_id(r@, id) <==> links_with_status(chain@, status@, id),
{
    let st = owned(status);
    let mut ids: Vec<String> = Vec::new();
    let mut c: usize = 0;
    while c < chain.len()
        invariant
            c <= chain@.len(),
            st@ == status@,
            forall|id: Seq<char>| has_id(ids@, id) <==>
                exists|c2: int| 0 <= c2 < c && #[trigger] link_has(chain@[c2], status@, id),
        decreases chain@.len() - c,
    {
        let ghost pre = ids@;
        let hit = match &chain[c].link_to_next {
            Some(l) => l.status == st,
            None => false,
        };
        proof {
            if hit {
                assert(link_has(chain@[c as int], status@, link_v(chain@[c as int].link_to_next).unwrap().0));
            }
        }
        if hit {
            let l = chain[c].link_to_next.as_ref().unwrap();
            ids.push(l.id.clone());
            proof {
                assert(link_has(chain@[c as int], status@, l.id@));
                assert(ids@[pre.len() as int]@ == l.id@);
            }
        }
        proof {
            assert forall|id: Seq<char>| has_id(ids@, id) implies
                exists|c2: int| 0 <= c2 < c + 1 && #[trigger] link_has(chain@[c2], status@, id) by {
                let k = choose|k: int| 0 <= k < ids@.len() && #[trigger] ids@[k]@ == id;
                if k < pre.len() {
                    assert(pre[k]@ == id);
                    assert(has_id(pre, id));
                } else {
                    assert(link_has(chain@[c as int], status@, id));
                }
            }
            assert forall|id: Seq<char>| (exists|c2: int| 0 <= c2 < c + 1 && #[trigger] link_has(chain@[c2], status@, id))
                implies has_id(ids@, id) by {
                let c2 = choose|c2: int| 0 <= c2 < c + 1 && #[trigger] link_has(chain@[c2], status@, id);
                if c2 < c {
                    assert(has_id(pre, id));
                    let k = choose|k: int| 0 <= k < pre.len() && #[trigger] pre[k]@ == id;
                    assert(ids@[k] == pre[k]);
                } else {
                    assert(hit);
                    assert(ids@[pre.len() as int]@ == id);
                }
            }
        }
        c = c + 1;
    }
    sorted_unique(&ids)
}

pub open spec fn feedback_summary_v(f: FeedbackEdgeView) -> (Seq<char>, Seq<char>, Seq<char>, Seq<char>) {
    (f.id, f.from, f.to, feedback_type_name(f.loop_type))
}

pub open spec fn touches_chain(chain: Seq<TraceEntry>) -> spec_fn(FeedbackEdgeView) -> bool {
    |f: FeedbackEdgeView| in_chain(chain, f.from) || in_chain(chain, f.to)
}

pub open spec fn feedback_summaries(v: Seq<FeedbackSummary>) -> Seq<(Seq<char>, Seq<char>, Seq<char>, Seq<char>)> {
    v.map_values(|f: FeedbackSummary| (f.id@, f.from@, f.to@, f.loop_type@))
}

/// Following every edge incident to `x` has been recorded: what it leads
/// to is queued and the chain has an entry for it.
pub open spec fn expanded_ok(ev: Seq<EdgeView>, qn: Seq<String>, chain: Seq<TraceEntry>, x: Seq<char>, down: bool) -> bool {
    forall|i: int| 0 <= i < ev.len() && #[trigger] incident_v(ev[i], x, down) ==> {
        &&& down ==> has_id(qn, ev[i].to)
        &&& !down ==> forall|j: int| 0 <= j < ev[i].from.len() ==> has_id(qn, #[trigger] ev[i].from[j])
        &&& exists|c: int| 0 <= c < chain.len() && #[trigger] chain[c].node@ == x
            && link_v(chain[c].link_to_next) == Some(summary_v(ev[i]))
    }
}

/// A chain entry's link is an edge incident to its node.
pub open spec fn entry_sound(ev: Seq<EdgeView>, e: TraceEntry, down: bool) -> bool {
    &&& e.knowledge is None
    &&& e.link_to_next is Some ==> exists|i: int| 0 <= i < ev.len() && incident_v(ev[i], e.node@, down)
        && link_v(e.link_to_next) == Some(summary_v(#[trigger] ev[i]))
}

/// The state of the breadth-first walk: the queue of nodes met (with their
/// depths), of which the first `head` were taken, and the chain so far.
pub open spec fn bfs_inv(ev: Seq<EdgeView>, start: Seq<char>, down: bool, max: usize, ends: Seq<Seq<char>>,
    qn: Seq<String>, qd: Seq<usize>, chain: Seq<TraceEntry>, head: int) -> bool
{
    &&& qn.len() == qd.len()
    &&& qn.len() >= 1
    &&& qn[0]@ == start
    &&& 0 <= head <= qn.len()
    &&& views(qn).no_duplicates()
    &&& forall|k: int| 0 <= k < qn.len() ==> ends.contains(#[trigger] qn[k]@)
    &&& qn.len() <= ends.len()
    &&& forall|k: int| 0 <= k < qd.len() ==> #[trigger] qd[k] <= k
    &&& forall|k: int| 0 <= k < qn.len() ==> traces_to(ev, start, #[trigger] qn[k]@, down)
    &&& forall|k: int| 0 <= k < head ==> in_chain(chain, #[trigger] qn[k]@)
    &&& forall|c: int| 0 <= c < chain.len() ==> exists|k: int| 0 <= k < head && (#[trigger] chain[c]).node@ == qn[k]@
    &&& forall|k: int| 0 <= k < head && qd[k] < max ==> expanded_ok(ev, qn, chain, #[trigger] qn[k]@, down)
    &&& forall|c: int| 0 <= c < chain.len() ==> entry_sound(ev, #[trigger] chain[c], down)
    &&& head >= 1 ==> chain.len() >= 1 && chain[0].node@ == start
}

proof fn lemma_expanded_mono(ev: Seq<EdgeView>, qn1: Seq<String>, c1: Seq<TraceEntry>, qn2: Seq<String>, c2: Seq<TraceEntry>,
    x: Seq<char>, down: bool)
    requires
        expanded_ok(ev, qn1, c1, x, down),
        forall|y: Seq<char>| has_id(qn1, y) ==> has_id(qn2, y),
        c2.len() >= c1.len(),
        forall|c: int| 0 <= c < c1.len() ==> c2[c] == c1[c],
    ensures expanded_ok(ev, qn2, c2, x, down),
{
    assert forall|i: int| 0 <= i < ev.len() && #[trigger] incident_v(ev[i], x, down) implies {
        &&& down ==> has_id(qn2, ev[i].to)
        &&& !down ==> forall|j: int| 0 <= j < ev[i].from.len() ==> has_id(qn2, #[trigger] ev[i].from[j])
        &&& exists|c: int| 0 <= c < c2.len() && #[trigger] c2[c].node@ == x
            && link_v(c2[c].link_to_next) == Some(summary_v(ev[i]))
    } by {
        if !down {
            assert forall|j: int| 0 <= j < ev[i].from.len() implies has_id(qn2, #[trigger] ev[i].from[j]) by {
                assert(has_id(qn1, ev[i].from[j]));
            }
        }
        let c = choose|c: int| 0 <= c < c1.len() && #[trigger] c1[c].node@ == x
            && link_v(c1[c].link_to_next) == Some(summary_v(ev[i]));
        assert(c2[c] == c1[c]);
    }
}

/// One step of the walk keeps its invariant: the node at `head` is taken
/// and either left as a terminal entry (depth reached) or expanded.
proof fn lemma_bfs_step(ev: Seq<EdgeView>, start: Seq<char>, down: bool, max: usize, ends: Seq<Seq<char>>,
    qn0: Seq<String>, qd0: Seq<usize>, c0: Seq<TraceEntry>, qn1: Seq<String>, qd1: Seq<usize>, c1: Seq<TraceEntry>, head: int)
    requires
        bfs_inv(ev, start, down, max, ends, qn0, qd0, c0, head),
        head < qn0.len(),
        qn1.len() == qd1.len(),
        qn1.len() >= qn0.len(),
        forall|k: int| 0 <= k < qn0.len() ==> qn1[k] == qn0[k] && qd1[k] == qd0[k],
        forall|k: int| qn0.len() <= k < qn1.len() ==> qd1[k] == qd0[head] + 1,
        forall|k: int| 0 <= k < qn1.len() ==> traces_to(ev, start, #[trigger] qn1[k]@, down),
        views(qn1).no_duplicates(),
        forall|k: int| 0 <= k < qn1.len() ==> ends.contains(#[trigger] qn1[k]@),
        c1.len() > c0.len(),
        forall|c: int| 0 <= c < c0.len() ==> c1[c] == c0[c],
        forall|c: int| c0.len() <= c < c1.len() ==> (#[trigger] c1[c]).node@ == qn0[head]@,
        forall|c: int| c0.len() <= c < c1.len() ==> entry_sound(ev, #[trigger] c1[c], down),
        qd0[head] < max ==> expanded_ok(ev, qn1, c1, qn0[head]@, down),
    ensures bfs_inv(ev, start, down, max, ends, qn1, qd1, c1, head + 1),
{
    assert forall|y: Seq<char>| has_id(qn0, y) implies has_id(qn1, y) by {
        let k = choose|k: int| 0 <= k < qn0.len() && #[trigger] qn0[k]@ == y;
        assert(qn1[k] == qn0[k]);
    }
    assert forall|x: Seq<char>| views(qn1).contains(x) implies ends.contains(x) by {
        let k = choose|k: int| 0 <= k < views(qn1).len() && views(qn1)[k] == x;
        assert(qn1[k]@ == x);
    }
    lemma_pigeon(views(qn1), ends);
    assert forall|k: int| 0 <= k < qd1.len() implies #[trigger] qd1[k] <= k by {
        if k < qn0.len() { assert(qd1[k] == qd0[k]); assert(qd0[k] <= k); } else { assert(qd0[head] <= head); }
    }
    assert forall|k: int| 0 <= k < head + 1 implies in_chain(c1, #[trigger] qn1[k]@) by {
        assert(qn1[k] == qn0[k]);
        if k < head {
            assert(in_chain(c0, qn0[k]@));
            let c = choose|c: int| 0 <= c < c0.len() && #[trigger] c0[c].node@ == qn0[k]@;
            assert(c1[c] == c0[c]);
        } else {
            assert(c1[c0.len() as int].node@ == qn0[head]@);
        }
    }
    assert forall|c: int| 0 <= c < c1.len() implies exists|k: int| 0 <= k < head + 1 && (#[trigger] c1[c]).node@ == qn1[k]@ by {
        if c < c0.len() {
            assert(c1[c] == c0[c]);
            let k = choose|k: int| 0 <= k < head && (#[trigger] c0[c]).node@ == qn0[k]@;
            assert(qn1[k] == qn0[k]);
        } else {
            assert(qn1[head] == qn0[head]);
        }
    }
    assert forall|k: int| 0 <= k < head + 1 && qd1[k] < max implies expanded_ok(ev, qn1, c1, #[trigger] qn1[k]@, down) by {
        assert(qn1[k] == qn0[k] && qd1[k] == qd0[k]);
        if k < head {
            lemma_expanded_mono(ev, qn0, c0, qn1, c1, qn0[k]@, down);
        }
    }
    assert forall|c: int| 0 <= c < c1.len() implies entry_sound(ev, #[trigger] c1[c], down) by {
        if c < c0.len() { assert(c1[c] == c0[c]); }
    }
    if head == 0 {
        assert(c1[0].node@ == qn0[0]@);
    } else {
        assert(c1[0] == c0[0]);
    }
}

/// The breadth-first walk from `start`, up to depth `max`.
fn bfs(all: &Vec<Edge>, down: bool, max: usize, start: &String) -> (r: (Vec<String>, Vec<usize>, Vec<TraceEntry>))
    ensures
        bfs_inv(edge_views(all@), start@, down, max, all_ends(edge_views(all@)).push(start@), r.0@, r.1@, r.2@, r.0@.len() as int),
        chain_v(r.2@) == trace_chain(edge_views(all@), down, max as int, start@),
{
    let ghost ev = edge_views(all@);
    let ghost ends = all_ends(ev).push(start@);
    let mut qn: Vec<String> = Vec::new();
    let mut qd: Vec<usize> = Vec::new();
    qn.push(start.clone());
    qd.push(0);
    let mut chain: Vec<TraceEntry> = Vec::new();
    proof {
        let p = seq![start@];
        assert(is_walk_v(ev, p));
        assert(reaches_v(ev, start@, start@));
        assert(ends[ends.len() - 1] == start@);
        assert(views(qn@) =~= seq![start@]);
        assert(depths_v(qd@) =~= seq![0int]);
        assert(chain_v(chain@) =~= Seq::empty());
    }
    let ghost fuel0: nat = (all_ends(ev).len() + 2) as nat;
    let mut head: usize = 0;
    while head < qn.len()
        invariant
            ev == edge_views(all@),
            ends == all_ends(ev).push(start@),
            fuel0 == all_ends(ev).len() + 2,
            bfs_inv(ev, start@, down, max, ends, qn@, qd@, chain@, head as int),
            bfs_from(ev, down, max as int, views(qn@), depths_v(qd@), chain_v(chain@), head as int, (fuel0 - head) as nat)
                == trace_chain(ev, down, max as int, start@),
        decreases ends.len() - head,
    {
        let u = qn[head].clone();
        let d = qd[head];
        let ghost qn0 = qn@;
        let ghost qd0 = qd@;
        let ghost c0 = chain@;
        proof {
            assert(views(qn0)[head as int] == u@);
            assert(depths_v(qd0)[head as int] == d as int);
        }
        if d >= max {
            chain.push(TraceEntry { node: u, link_to_next: None, knowledge: None });
            proof { assert(chain_v(chain@) =~= chain_v(c0).push((views(qn0)[head as int], None))); }
        } else {
            expand(all, down, &u, d, &mut qn, &mut qd, &mut chain, Ghost(start@), Ghost(ends));
            proof {
                assert forall|i: int| 0 <= i < ev.len() && #[trigger] incident_v(ev[i], u@, down) implies {
                    &&& down ==> has_id(qn@, ev[i].to)
                    &&& !down ==> forall|j: int| 0 <= j < ev[i].from.len() ==> has_id(qn@, #[trigger] ev[i].from[j])
                    &&& exists|c: int| 0 <= c < chain@.len() && #[trigger] chain@[c].node@ == u@
                        && link_v(chain@[c].link_to_next) == Some(summary_v(ev[i]))
                } by {
                    assert(all@[i]@ == ev[i]);
                }
                assert forall|c: int| c0.len() <= c < chain@.len() implies entry_sound(ev, #[trigger] chain@[c], down) by {
                    if chain@[c].link_to_next is Some {
                        let i = choose|i: int| 0 <= i < all@.len() && incident_v(all@[i]@, u@, down)
                            && link_v(chain@[c].link_to_next) == Some(summary_v(#[trigger] all@[i]@));
                        assert(ev[i] == all@[i]@);
                    }
                }
            }
        }
        proof {
            lemma_bfs_step(ev, start@, down, max, ends, qn0, qd0, c0, qn@, qd@, chain@, head as int);
        }
        head = head + 1;
    }
    (qn, qd, chain)
}

/// Without a depth limit, the walk meets every node reached from the start.
proof fn lemma_bfs_complete(ev: Seq<EdgeView>, start: Seq<char>, down: bool, ends: Seq<Seq<char>>,
    qn: Seq<String>, qd: Seq<usize>, chain: Seq<TraceEntry>, x: Seq<char>)
    requires
        bfs_inv(ev, start, down, usize::MAX, ends, qn, qd, chain, qn.len() as int),
        qn.len() <= usize::MAX,
        traces_to(ev, start, x, down),
    ensures
        has_id(qn, x),
        in_chain(chain, x),
        expanded_ok(ev, qn, chain, x, down),
{
    let s = Set::new(|y: Seq<char>| has_id(qn, y));
    assert forall|k: int| 0 <= k < qn.len() implies qd[k] < usize::MAX by { assert(qd[k] <= k); }
    if down {
        assert forall|a: Seq<char>, b: Seq<char>| s.contains(a) && has_edge_v(ev, a, b) implies s.contains(b) by {
            let (i, j) = choose|i: int, j: int| 0 <= i < ev.len() && 0 <= j < ev[i].from.len()
                && #[trigger] ev[i].from[j] == a && ev[i].to == b;
            let k = choose|k: int| 0 <= k < qn.len() && #[trigger] qn[k]@ == a;
            assert(expanded_ok(ev, qn, chain, qn[k]@, down));
            assert(incident_v(ev[i], qn[k]@, down));
        }
        let p = choose|p: Seq<Seq<char>>| #[trigger] is_walk_v(ev, p) && p.len() >= 1 && p[0] == start && p[p.len() - 1] == x;
        assert(s.contains(start)) by { assert(qn[0]@ == start); }
        crate::validate::acyclic::lemma_fwd_closed_complete(ev, s, p, p.len() - 1);
    } else {
        assert forall|a: Seq<char>, b: Seq<char>| s.contains(b) && has_edge_v(ev, a, b) implies s.contains(a) by {
            let (i, j) = choose|i: int, j: int| 0 <= i < ev.len() && 0 <= j < ev[i].from.len()
                && #[trigger] ev[i].from[j] == a && ev[i].to == b;
            let k = choose|k: int| 0 <= k < qn.len() && #[trigger] qn[k]@ == b;
            assert(expanded_ok(ev, qn, chain, qn[k]@, down));
            assert(incident_v(ev[i], qn[k]@, down));
            assert(has_id(qn, ev[i].from[j]));
        }
        let p = choose|p: Seq<Seq<char>>| #[trigger] is_walk_v(ev, p) && p.len() >= 1 && p[0] == x && p[p.len() - 1] == start;
        assert(s.contains(start)) by { assert(qn[0]@ == start); }
        crate::validate::acyclic::lemma_bwd_closed_complete(ev, s, p, 0);
    }
    let k = choose|k: int| 0 <= k < qn.len() && #[trigger] qn[k]@ == x;
    assert(in_chain(chain, qn[k]@));
    assert(expanded_ok(ev, qn, chain, qn[k]@, down));
}

/// `trace`: a breadth-first walk from `node_id` through the tree's edges
/// (and those of its negative branches when asked), downstream along
/// causes or upstream along effects, up to `depth` steps. Every node met
/// gives an entry per edge it is left by (or one terminal entry), the start
/// first; without a depth limit every node reached and every edge it is
/// left by appears. Also reports the feedback loops at the nodes met and
/// the broken and superseded links met.
pub fn trace(tree: &Tree, pool: &Vec<String>, node_id: &str, direction: &str, depth: Option<usize>, no_feedback: bool,
    include_nbr: bool) -> (r: Result<TraceData, OutputError>)
    ensures
        !has_id(pool@, node_id@) ==> err_is(r, "NODE_NOT_FOUND"@, quoted_detail("Node"@, node_id@, " not found in pool"@)),
        has_id(pool@, node_id@) && !attached(tree.nodes@, node_id@)
            ==> err_is(r, "NODE_NOT_IN_TREE"@, not_in_tree_detail(node_id@, tree.id@)),
        has_id(pool@, node_id@) && attached(tree.nodes@, node_id@) && direction@ != "downstream"@ && direction@ != "upstream"@
            ==> err_is(r, "INVALID_DIRECTION"@, "Direction must be 'upstream' or 'downstream', got '"@ + direction@ + "'"@),
        has_id(pool@, node_id@) && attached(tree.nodes@, node_id@) && (direction@ == "downstream"@ || direction@ == "upstream"@)
            ==> (r matches Ok(d) && trace_result(*tree, node_id@, direction@, depth, no_feedback, include_nbr, d)),
{
    let start = owned(node_id);
    if !contains_string(pool, &start) {
        return Err(quoted_error("NODE_NOT_FOUND", "Node", node_id, " not found in pool"));
    }
    if !is_attached(&tree.nodes, &start) {
        return Err(not_in_tree_error(node_id, tree.id.as_str()));
    }
    let dir = owned(direction);
    let down = dir == owned("downstream");
    let up = dir == owned("upstream");
    if !down && !up {
        return Err(OutputError::new("INVALID_DIRECTION",
            cat3("Direction must be 'upstream' or 'downstream', got '", direction, "'")));
    }
    let all = trace_edges(tree, include_nbr);
    let ghost ev = edge_views(all@);
    let max = match depth { Some(m) => m, None => usize::MAX };
    let (qn, qd, chain) = bfs(&all, down, max, &start);
    let ghost ends = all_ends(ev).push(node_id@);
    let nq = qn.len();
    proof {
        assert forall|x: Seq<char>| has_id(qn@, x) <==> in_chain(chain@, x) by {
            if has_id(qn@, x) {
                let k = choose|k: int| 0 <= k < qn@.len() && #[trigger] qn@[k]@ == x;
                assert(in_chain(chain@, qn@[k]@));
            }
            if in_chain(chain@, x) {
                let c = choose|c: int| 0 <= c < chain@.len() && #[trigger] chain@[c].node@ == x;
                let k = choose|k: int| 0 <= k < qn@.len() && (#[trigger] chain@[c]).node@ == qn@[k]@;
            }
        }
    }
    // Feedback loops at the nodes met.
    let mut feedback: Vec<FeedbackSummary> = Vec::new();
    if !no_feedback {
        let ghost sel = touches_chain(chain@);
        let mut f: usize = 0;
        while f < tree.feedback_edges.len()
            invariant
                f <= tree.feedback_edges@.len(),
                sel == touches_chain(chain@),
                forall|x: Seq<char>| has_id(qn@, x) <==> in_chain(chain@, x),
                feedback_summaries(feedback@) == filter_seq(feedback_views(tree.feedback_edges@).take(f as int), sel)
                    .map_values(|fe: FeedbackEdgeView| feedback_summary_v(fe)),
            decreases tree.feedback_edges@.len() - f,
        {
            let fe = &tree.feedback_edges[f];
            proof { lemma_filter_step(feedback_views(tree.feedback_edges@), sel, f as int); }
            let ghost pre = feedback@;
            if contains_string(&qn, &fe.from) || contains_string(&qn, &fe.to) {
                feedback.push(FeedbackSummary {
                    id: fe.id.clone(),
                    from: fe.from.clone(),
                    to: fe.to.clone(),
                    loop_type: owned(feedback_type_str(fe.loop_type)),
                });
                proof {
                    assert(feedback_summaries(feedback@) =~= feedback_summaries(pre).push(feedback_summary_v(fe@)));
                    assert(filter_seq(feedback_views(tree.feedback_edges@).take(f + 1), sel).map_values(|x: FeedbackEdgeView| feedback_summary_v(x))
                        =~= filter_seq(feedback_views(tree.feedback_edges@).take(f as int), sel).map_values(|x: FeedbackEdgeView| feedback_summary_v(x)).push(feedback_summary_v(fe@)));
                }
            }
            f = f + 1;
        }
        proof { lemma_take_all(feedback_views(tree.feedback_edges@)); }
    }
    let broken = chain_links_with(&chain, "broken");
    let superseded = chain_links_with(&chain, "superseded");
    let fully = broken.len() == 0 && superseded.len() == 0;
    let d = TraceData {
        node_id: start,
        tree_id: tree.id.clone(),
        direction: dir,
        depth,
        chain,
        feedback_loops: feedback,
        chain_health: ChainHealth { fully_connected: fully, broken_links: broken, superseded_links: superseded },
    };
    proof {
        let down_s = direction@ == "downstream"@;
        assert(down == down_s);
        assert(ev == trace_edge_seq(*tree, include_nbr));
        assert forall|c: int| 0 <= c < d.chain@.len() implies traces_to(ev, node_id@, (#[trigger] d.chain@[c]).node@, down) by {
            let k = choose|k: int| 0 <= k < qn@.len() && (#[trigger] d.chain@[c]).node@ == qn@[k]@;
        }
        if depth is None {
            assert forall|x: Seq<char>| traces_to(ev, node_id@, x, down) implies in_chain(d.chain@, x) by {
                lemma_bfs_complete(ev, node_id@, down, ends, qn@, qd@, d.chain@, x);
            }
            assert forall|x: Seq<char>, i: int| traces_to(ev, node_id@, x, down) && 0 <= i < ev.len() && incident_v(ev[i], x, down)
                implies exists|c: int| 0 <= c < d.chain@.len() && #[trigger] d.chain@[c].node@ == x
                    && link_v(d.chain@[c].link_to_next) == Some(summary_v(ev[i])) by {
                lemma_bfs_complete(ev, node_id@, down, ends, qn@, qd@, d.chain@, x);
            }
        }
        assert forall|c: int| 0 <= c < d.chain@.len() implies entry_sound(ev, #[trigger] d.chain@[c], down) by {}
    }
    Ok(d)
}

/// The depth a trace stops at: the given one, else no limit short of the
/// machine's.
pub open spec fn depth_limit(depth: Option<usize>) -> int {
    match depth {
        Some(m) => m as int,
        None => usize::MAX as int,
    }
}

/// What `trace` reports on an accepted start and direction.
pub open spec fn trace_result(tree: Tree, node_id: Seq<char>, direction: Seq<char>, depth: Option<usize>, no_feedback: bool,
    include_nbr: bool, d: TraceData) -> bool
{
    let down = direction == "downstream"@;
    let ev = trace_edge_seq(tree, include_nbr);
    let chain = d.chain@;
    &&& d.node_id@ == node_id && d.tree_id@ == tree.id@ && d.direction@ == direction && d.depth == depth
    &&& chain_v(chain) == trace_chain(ev, down, depth_limit(depth), node_id)
    &&& chain.len() >= 1 && chain[0].node@ == node_id
    &&& forall|c: int| 0 <= c < chain.len() ==> traces_to(ev, node_id, (#[trigger] chain[c]).node@, down)
    &&& forall|c: int| 0 <= c < chain.len() ==> entry_sound(ev, #[trigger] chain[c], down)
    &&& depth is None ==> forall|x: Seq<char>| traces_to(ev, node_id, x, down) ==> in_chain(chain, x)
    &&& depth is None ==> forall|x: Seq<char>, i: int| traces_to(ev, node_id, x, down) && 0 <= i < ev.len()
            && incident_v(ev[i], x, down) ==> exists|c: int| 0 <= c < chain.len() && #[trigger] chain[c].node@ == x
                && link_v(chain[c].link_to_next) == Some(summary_v(ev[i]))
    &&& no_feedback ==> d.feedback_loops@.len() == 0
    &&& !no_feedback ==> feedback_summaries(d.feedback_loops@)
            == filter_seq(tree@.feedback_edges, touches_chain(chain)).map_values(|f: FeedbackEdgeView| feedback_summary_v(f))
    &&& strictly_sorted(d.chain_health.broken_links@)
    &&& forall|id: Seq<char>| has_id(d.chain_health.broken_links@, id) <==> links_with_status(chain, "broken"@, id)
    &&& strictly_sorted(d.chain_health.superseded_links@)
    &&& forall|id: Seq<char>| has_id(d.chain_health.superseded_links@, id) <==> links_with_status(chain, "superseded"@, id)
    &&& d.chain_health.fully_connected == (d.chain_health.broken_links@.len() == 0
            && d.chain_health.superseded_links@.len() == 0)
}
} // verus!

verus! {

pub open spec fn find_entry_v(e: EdgeView) -> (Seq<char>, Seq<char>, Seq<char>) {
    (e.id, operator_name(e.operator), status_name(e.status))
}

pub open spec fn joins(from: Seq<char>, to: Seq<char>) -> spec_fn(EdgeView) -> bool {
    |e: EdgeView| e.from.contains(from) && e.to == to
}

/// `link find`: the edges of the tree and of its negative branches, in
/// order, from `from` (among the causes) to `to`.
pub fn link_find(tree: &Tree, from: &str, to: &str) -> (r: LinkFindData)
    ensures
        r.from@ == from@ && r.to@ == to@ && r.tree_id@ == tree.id@,
        r.links@.map_values(|l: LinkFindEntry| (l.id@, l.operator@, l.status@))
            == filter_seq(trace_edge_seq(*tree, true), joins(from@, to@)).map_values(|e: EdgeView| find_entry_v(e)),
{
    let all = trace_edges(tree, true);
    let f = owned(from);
    let t = owned(to);
    let ghost sel = joins(from@, to@);
    let mut links: Vec<LinkFindEntry> = Vec::new();
    let mut i: usize = 0;
    while i < all.len()
        invariant
            i <= all@.len(),
            f@ == from@, t@ == to@,
            sel == joins(from@, to@),
            links@.map_values(|l: LinkFindEntry| (l.id@, l.operator@, l.status@))
                == filter_seq(edge_views(all@).take(i as int), sel).map_values(|e: EdgeView| find_entry_v(e)),
        decreases all@.len() - i,
    {
        proof {
            lemma_filter_step(edge_views(all@), sel, i as int);
            crate::strutil::lemma_has_id_views(all@[i as int].from@, from@);
        }
        let e = &all[i];
        let ghost pre = links@;
        if contains_string(&e.from, &f) && e.to == t {
            links.push(LinkFindEntry { id: e.id.clone(), operator: owned(operator_str(e.operator)), status: owned(status_str(e.status)) });
            proof {
                assert(links@.map_values(|l: LinkFindEntry| (l.id@, l.operator@, l.status@))
                    =~= pre.map_values(|l: LinkFindEntry| (l.id@, l.operator@, l.status@)).push(find_entry_v(e@)));
            }
        }
        i = i + 1;
    }
    proof { lemma_take_all(edge_views(all@)); }
    LinkFindData { from: f, to: t, tree_id: tree.id.clone(), links }
}

/// The edges of the tree's negative branches, in order.
fn branch_edge_vec(t: &Tree) -> (r: Vec<Edge>)
    ensures edge_views(r@) == branch_edges(t@.nbr_branches),
{
    let mut r: Vec<Edge> = Vec::new();
    let ghost bs = t@.nbr_branches;
    let mut b: usize = 0;
    while b < t.nbr_branches.len()
        invariant
            b <= t.nbr_branches@.len(),
            bs == t@.nbr_branches,
            edge_views(r@) == branch_edges(bs.take(b as int)),
        decreases t.nbr_branches@.len() - b,
    {
        let br = &t.nbr_branches[b];
        let ghost base = r@;
        let mut k: usize = 0;
        while k < br.edges.len()
            invariant
                k <= br.edges@.len(),
                edge_views(r@) == edge_views(base) + edge_views(br.edges@).take(k as int),
            decreases br.edges@.len() - k,
        {
            let ghost pre = r@;
            r.push(clone_edge(&br.edges[k]));
            proof {
                assert(edge_views(r@) =~= edge_views(pre).push(br.edges@[k as int]@));
                assert(edge_views(br.edges@).take(k + 1) =~= edge_views(br.edges@).take(k as int).push(br.edges@[k as int]@));
            }
            k = k + 1;
        }
        proof {
            assert(edge_views(br.edges@).take(br.edges@.len() as int) =~= edge_views(br.edges@));
            assert(bs.take(b + 1).drop_last() =~= bs.take(b as int));
            assert(bs.take(b + 1).last() == bs[b as int]);
            assert(edge_views(r@) =~= branch_edges(bs.take(b + 1)));
        }
        b = b + 1;
    }
    proof { assert(bs.take(bs.len() as int) =~= bs); }
    r
}

/// The label of the first pool node with this ID (empty when none).
pub open spec fn label_in(pool: Seq<crate::node::types::NodeView>, id: Seq<char>) -> Seq<char>
    decreases pool.len(),
{
    if pool.len() == 0 {
        Seq::empty()
    } else if pool[0].id == id {
        pool[0].label
    } else {
        label_in(pool.drop_first(), id)
    }
}

fn label_of(pool: &Vec<crate::node::types::Node>, id: &String) -> (r: String)
    ensures r@ == label_in(crate::node::commands::node_views(pool@), id@),
{
    let ghost pv = crate::node::commands::node_views(pool@);
    let mut i: usize = 0;
    assert(pv.subrange(0, pv.len() as int) =~= pv);
    while i < pool.len()
        invariant
            i <= pool@.len(),
            pv == crate::node::commands::node_views(pool@),
            label_in(pv, id@) == label_in(pv.subrange(i as int, pv.len() as int), id@),
        decreases pool@.len() - i,
    {
        let ghost rest = pv.subrange(i as int, pv.len() as int);
        assert(rest[0] == pool@[i as int]@);
        assert(rest.drop_first() =~= pv.subrange(i + 1, pv.len() as int));
        if pool[i].id == *id {
            return pool[i].label.clone();
        }
        i = i + 1;
    }
    assert(pv.subrange(i as int, pv.len() as int).len() == 0);
    String::new()
}

/// The first edge with the given ID among the tree's edges, then among
/// those of its negative branches.
pub open spec fn inspected_edge(tree: Tree, link_id: Seq<char>) -> Option<EdgeView> {
    let ids = tree@.edges.map_values(|e: EdgeView| e.id);
    let nb = branch_edges(tree@.nbr_branches);
    let nids = nb.map_values(|e: EdgeView| e.id);
    if ids.contains(link_id) {
        Some(tree@.edges[choose|i: int| crate::link::types::first_at(ids, link_id, i)])
    } else if nids.contains(link_id) {
        Some(nb[choose|i: int| crate::link::types::first_at(nids, link_id, i)])
    } else {
        None
    }
}

pub open spec fn asm_status_name(s: crate::link::types::AssumptionStatus) -> Seq<char> {
    match s {
        crate::link::types::AssumptionStatus::Valid => "valid"@,
        crate::link::types::AssumptionStatus::Invalid => "invalid"@,
        crate::link::types::AssumptionStatus::NeedsReview => "needsreview"@,
    }
}

fn asm_status_str(s: crate::link::types::AssumptionStatus) -> (r: &'static str)
    ensures r@ == asm_status_name(s),
{
    match s {
        crate::link::types::AssumptionStatus::Valid => "valid",
        crate::link::types::AssumptionStatus::Invalid => "invalid",
        crate::link::types::AssumptionStatus::NeedsReview => "needsreview",
    }
}

proof fn lemma_first_at_unique(ids: Seq<Seq<char>>, x: Seq<char>, i: int)
    requires crate::link::types::first_at(ids, x, i),
    ensures forall|j: int| crate::link::types::first_at(ids, x, j) ==> j == i,
{
    assert forall|j: int| crate::link::types::first_at(ids, x, j) implies j == i by {
        if j < i { assert(ids[j] != x); }
        if i < j { assert(ids[i] != x); }
    }
}

/// `link inspect`: the first edge `link_id` of the tree, else of its
/// negative branches, with the labels of its ends (empty for a node not in
/// the pool) and its assumptions.
pub fn link_inspect(tree: &Tree, pool: &Vec<crate::node::types::Node>, link_id: &str) -> (r: Result<LinkInspectData, OutputError>)
    ensures
        inspected_edge(*tree, link_id@) is None
            ==> err_is(r, "LINK_NOT_FOUND"@, quoted_detail("Link"@, link_id@, " not found in tree '"@ + tree.id@ + "'"@)),
        inspected_edge(*tree, link_id@) matches Some(e) ==> (r matches Ok(d) && {
            let pv = crate::node::commands::node_views(pool@);
            &&& d.id@ == e.id && views(d.from@) == e.from && d.to@ == e.to
            &&& d.from_labels@.len() == e.from.len()
            &&& forall|k: int| 0 <= k < e.from.len() ==> (#[trigger] d.from_labels@[k]).id@ == e.from[k]
                && d.from_labels@[k].label@ == label_in(pv, e.from[k])
            &&& d.to_label@ == label_in(pv, e.to)
            &&& d.operator@ == operator_name(e.operator) && d.weight == e.weight
            &&& d.status@ == status_name(e.status) && d.logic@ == logic_name(e.logic)
            &&& d.assumptions@.len() == e.assumptions.len()
            &&& forall|k: int| 0 <= k < e.assumptions.len() ==> (#[trigger] d.assumptions@[k]).id@ == e.assumptions[k].id
                && d.assumptions@[k].text@ == e.assumptions[k].text && d.assumptions@[k].status@ == asm_status_name(e.assumptions[k].status)
        }),
{
    let ghost ids = tree@.edges.map_values(|e: EdgeView| e.id);
    let ghost nb = branch_edges(tree@.nbr_branches);
    let nbv = branch_edge_vec(tree);
    proof {
        assert(crate::link::types::edge_ids(tree.edges@) =~= ids);
        assert(crate::link::types::edge_ids(nbv@) =~= nb.map_values(|e: EdgeView| e.id));
    }
    let e: &Edge = match crate::link::types::find_edge(&tree.edges, link_id) {
        Some(i) => {
            proof {
                lemma_first_at_unique(ids, link_id@, i as int);
                assert(inspected_edge(*tree, link_id@) == Some(tree.edges@[i as int]@));
            }
            &tree.edges[i]
        },
        None => match crate::link::types::find_edge(&nbv, link_id) {
            Some(i) => {
                proof {
                    lemma_first_at_unique(nb.map_values(|e: EdgeView| e.id), link_id@, i as int);
                    assert(nb[i as int] == nbv@[i as int]@);
                    assert(inspected_edge(*tree, link_id@) == Some(nbv@[i as int]@));
                }
                &nbv[i]
            },
            None => {
                return Err(quoted_error("LINK_NOT_FOUND", "Link", link_id, cat3(" not found in tree '", tree.id.as_str(), "'").as_str()));
            },
        },
    };
    let mut from_labels: Vec<NodeLabel> = Vec::new();
    let mut k: usize = 0;
    while k < e.from.len()
        invariant
            k <= e.from@.len(),
            from_labels@.len() == k,
            forall|q: int| 0 <= q < k ==> (#[trigger] from_labels@[q]).id@ == e@.from[q]
                && from_labels@[q].label@ == label_in(crate::node::commands::node_views(pool@), e@.from[q]),
        decreases e.from@.len() - k,
    {
        let l = label_of(pool, &e.from[k]);
        from_labels.push(NodeLabel { id: e.from[k].clone(), label: l });
        k = k + 1;
    }
    let mut asms: Vec<AssumptionDetail> = Vec::new();
    let mut a: usize = 0;
    while a < e.assumptions.len()
        invariant
            a <= e.assumptions@.len(),
            asms@.len() == a,
            forall|q: int| 0 <= q < a ==> (#[trigger] asms@[q]).id@ == e@.assumptions[q].id
                && asms@[q].text@ == e@.assumptions[q].text && asms@[q].status@ == asm_status_name(e@.assumptions[q].status),
        decreases e.assumptions@.len() - a,
    {
        let x = &e.assumptions[a];
        asms.push(AssumptionDetail { id: x.id.clone(), text: x.text.clone(), status: owned(asm_status_str(x.status)) });
        a = a + 1;
    }
    Ok(LinkInspectData {
        id: e.id.clone(),
        from: clone_strings(&e.from),
        from_labels,
        to: e.to.clone(),
        to_label: label_of(pool, &e.to),
        operator: owned(operator_str(e.operator)),
        weight: e.weight,
        status: owned(status_str(e.status)),
        logic: owned(logic_str(e.logic)),
        assumptions: asms,
    })
}


/// The lower-case name of a knowledge relation.
pub open spec fn relation_name(r: KnowledgeRelation) -> Seq<char> {
    match r {
        KnowledgeRelation::Supports => "supports"@,
        KnowledgeRelation::Contradicts => "contradicts"@,
        KnowledgeRelation::Contextualizes => "contextualizes"@,
    }
}

/// The lower-case name of a knowledge status.
pub open spec fn knowledge_status_name(s: KnowledgeStatus) -> Seq<char> {
    match s {
        KnowledgeStatus::Unverified => "unverified"@,
        KnowledgeStatus::Verified => "verified"@,
        KnowledgeStatus::Refuted => "refuted"@,
        KnowledgeStatus::Superseded => "superseded"@,
    }
}

/// The lower-case name of a confidence level.
pub open spec fn confidence_name(c: Confidence) -> Seq<char> {
    match c {
        Confidence::High => "high"@,
        Confidence::Medium => "medium"@,
        Confidence::Low => "low"@,
    }
}

fn relation_string(r: KnowledgeRelation) -> (s: String)
    ensures s@ == relation_name(r),
{
    match r {
        KnowledgeRelation::Supports => owned("supports"),
        KnowledgeRelation::Contradicts => owned("contradicts"),
        KnowledgeRelation::Contextualizes => owned("contextualizes"),
    }
}

fn knowledge_status_string(s: KnowledgeStatus) -> (r: String)
    ensures r@ == knowledge_status_name(s),
{
    match s {
        KnowledgeStatus::Unverified => owned("unverified"),
        KnowledgeStatus::Verified => owned("verified"),
        KnowledgeStatus::Refuted => owned("refuted"),
        KnowledgeStatus::Superseded => owned("superseded"),
    }
}

fn confidence_string(c: Confidence) -> (r: String)
    ensures r@ == confidence_name(c),
{
    match c {
        Confidence::High => owned("high"),
        Confidence::Medium => owned("medium"),
        Confidence::Low => owned("low"),
    }
}

/// A knowledge summary as plain values: item, relation, status, confidence.
pub open spec fn knowledge_summary_view(k: KnowledgeSummary) -> (Seq<char>, Seq<char>, Seq<char>, Option<Seq<char>>) {
    (k.id@, k.relation@, k.status@, match k.confidence { Some(c) => Some(c@), None => None })
}

pub open spec fn knowledge_summaries_view(s: Seq<KnowledgeSummary>) -> Seq<(Seq<char>, Seq<char>, Seq<char>, Option<Seq<char>>)> {
    s.map_values(|k: KnowledgeSummary| knowledge_summary_view(k))
}

/// The summaries of the first `n` links of `item` that target `node`, in order.
pub open spec fn item_summaries(item: KnowledgeItem, n: int, node: Seq<char>)
    -> Seq<(Seq<char>, Seq<char>, Seq<char>, Option<Seq<char>>)>
    decreases n,
{
    if n <= 0 {
        Seq::empty()
    } else {
        let l = item.links@[n - 1];
        item_summaries(item, n - 1, node) + if l.target@ == node {
            seq![(item.id@, relation_name(l.relation), knowledge_status_name(item.status),
                match item.confidence { Some(c) => Some(confidence_name(c)), None => None })]
        } else {
            Seq::empty()
        }
    }
}

/// The knowledge about `node`: for each item in order, its links to the
/// node in order.
pub open spec fn knowledge_about(items: Seq<KnowledgeItem>, node: Seq<char>)
    -> Seq<(Seq<char>, Seq<char>, Seq<char>, Option<Seq<char>>)>
    decreases items.len(),
{
    if items.len() == 0 {
        Seq::empty()
    } else {
        knowledge_about(items.drop_last(), node) + item_summaries(items.last(), items.last().links@.len() as int, node)
    }
}

fn knowledge_for(items: &Vec<KnowledgeItem>, node: &String) -> (r: Vec<KnowledgeSummary>)
    ensures knowledge_summaries_view(r@) == knowledge_about(items@, node@),
{
    let mut r: Vec<KnowledgeSummary> = Vec::new();
    let mut i: usize = 0;
    while i < items.len()
        invariant
            i <= items@.len(),
            knowledge_summaries_view(r@) == knowledge_about(items@.take(i as int), node@),
        decreases items@.len() - i,
    {
        let item = &items[i];
        let ghost before = knowledge_summaries_view(r@);
        let mut j: usize = 0;
        while j < item.links.len()
            invariant
                j <= item.links@.len(),
                knowledge_summaries_view(r@) == before + item_summaries(*item, j as int, node@),
            decreases item.links@.len() - j,
        {
            let l = &item.links[j];
            let ghost pre = r@;
            if l.target == *node {
                let confidence = match item.confidence {
                    Some(c) => Some(confidence_string(c)),
                    None => None,
                };
                r.push(KnowledgeSummary {
                    id: item.id.clone(),
                    relation: relation_string(l.relation),
                    status: knowledge_status_string(item.status),
                    confidence,
                });
                proof {
                    assert(r@ == pre.push(r@.last()));
                    assert(knowledge_summaries_view(r@) =~= knowledge_summaries_view(pre).push(knowledge_summary_view(r@.last())));
                }
            }
            proof {
                assert(item.links@[j as int] == *l);
                assert(knowledge_summaries_view(r@) =~= before + item_summaries(*item, j + 1, node@));
            }
            j = j + 1;
        }
        proof {
            let t = items@.take(i + 1);
            assert(t.drop_last() =~= items@.take(i as int));
            assert(t.last() == *item);
        }
        i = i + 1;
    }
    proof { assert(items@.take(items@.len() as int) =~= items@); }
    r
}

/// `trace --show-knowledge`: every entry of the chain gets the knowledge
/// about its node, from the loaded items.
pub fn attach_knowledge(chain: &mut Vec<TraceEntry>, items: &Vec<KnowledgeItem>)
    ensures
        final(chain)@.len() == old(chain)@.len(),
        forall|c: int| 0 <= c < final(chain)@.len() ==> {
            let e = #[trigger] final(chain)@[c];
            &&& e.node == old(chain)@[c].node
            &&& e.link_to_next == old(chain)@[c].link_to_next
            &&& e.knowledge matches Some(ks) && knowledge_summaries_view(ks@) == knowledge_about(items@, old(chain)@[c].node@)
        },
{
    let ghost orig = chain@;
    let n: usize = chain.len();
    assert(orig.len() == n);
    let mut out: Vec<TraceEntry> = Vec::new();
    let mut c: usize = 0;
    while chain.len() > 0
        invariant
            c + chain@.len() == orig.len(),
            orig.len() <= usize::MAX,
            out@.len() == c,
            forall|k: int| 0 <= k < chain@.len() ==> #[trigger] chain@[k] == orig[c + k],
            forall|k: int| 0 <= k < c ==> {
                let e = #[trigger] out@[k];
                &&& e.node == orig[k].node
                &&& e.link_to_next == orig[k].link_to_next
                &&& e.knowledge matches Some(ks) && knowledge_summaries_view(ks@) == knowledge_about(items@, orig[k].node@)
            },
        decreases chain@.len(),
    {
        let ghost pre = chain@;
        let e = chain.remove(0);
        proof {
            assert(e == orig[c as int]);
            assert forall|k: int| 0 <= k < chain@.len() implies #[trigger] chain@[k] == orig[c + 1 + k] by {
                assert(chain@[k] == pre[k + 1]);
            }
        }
        let TraceEntry { node, link_to_next, knowledge: _ } = e;
        let ks = knowledge_for(items, &node);
        out.push(TraceEntry { node, link_to_next, knowledge: Some(ks) });
        c = c + 1;
    }
    *chain = out;
}

} // verus!
