//! Categories of Legitimate Reservation (CLR) lints over a tree.
use vstd::prelude::*;
use crate::link::types::{Edge, Operator};
use crate::node::clr_lint::{conjunction, conjunction_name, find_conjunctions, label_hits};
use crate::node::types::{Node, NodeType};
use crate::output::{context_get, ContextValue, ContextValueView, OutputWarning};
use crate::strutil::{cat3, cat5, decimal, has_id, owned, u64_to_decimal};

verus! {

// ---------------------------------------------------------------- CLR#2

/// `(node index, conjunction)` pairs found over a list of nodes, node by
/// node, conjunctions in list order.
pub open spec fn clr2_pairs(nodes: Seq<Node>) -> Seq<(int, int)>
    decreases nodes.len(),
{
    if nodes.len() == 0 {
        seq![]
    } else {
        let n = nodes.len() - 1;
        clr2_pairs(nodes.drop_last()) + label_hits(nodes.last().label@).map_values(|k: int| (n, k))
    }
}

pub open spec fn is_clr2_warning(w: OutputWarning, node: Node, k: int) -> bool {
    &&& w.code@ == "CLR2_CONJUNCTION_DETECTED"@
    &&& w.detail@ == "Causal conjunction '"@ + conjunction_name(k) + "' detected in node '"@
            + node.id@ + "'. Consider splitting."@
    &&& context_get(w.context@, "node_id"@) == Some(ContextValueView::Str(node.id@))
    &&& context_get(w.context@, "conjunction"@) == Some(ContextValueView::Str(conjunction_name(k)))
}

/// One CLR#2 warning per `(node, conjunction)` pair, in pair order.
pub open spec fn clr2_result(nodes: Seq<Node>, r: Seq<OutputWarning>) -> bool {
    &&& r.len() == clr2_pairs(nodes).len()
    &&& forall|t: int| 0 <= t < r.len() ==> 0 <= #[trigger] clr2_pairs(nodes)[t].0 < nodes.len()
            && is_clr2_warning(r[t], nodes[clr2_pairs(nodes)[t].0], clr2_pairs(nodes)[t].1)
}

/// CLR#2: causal conjunctions in node labels, one warning per node and
/// conjunction found.
pub fn lint_clr2(nodes: &Vec<Node>) -> (r: Vec<OutputWarning>)
    ensures clr2_result(nodes@, r@),
{
    proof {
        reveal_strlit("node_id");
        reveal_strlit("conjunction");
        assert("node_id"@[0] != "conjunction"@[0]);
    }
    let mut warnings: Vec<OutputWarning> = Vec::new();
    let mut i: usize = 0;
    while i < nodes.len()
        invariant
            i <= nodes@.len(),
            "node_id"@ != "conjunction"@,
            warnings@.len() == clr2_pairs(nodes@.subrange(0, i as int)).len(),
            forall|t: int| 0 <= t < warnings@.len() ==> 0 <= clr2_pairs(nodes@.subrange(0, i as int))[t].0 < i
                && is_clr2_warning(#[trigger] warnings@[t], nodes@[clr2_pairs(nodes@.subrange(0, i as int))[t].0],
                    clr2_pairs(nodes@.subrange(0, i as int))[t].1),
        decreases nodes@.len() - i,
    {
        let node = &nodes[i];
        let hits = find_conjunctions(node.label.as_str());
        let ghost base = clr2_pairs(nodes@.subrange(0, i as int));
        let ghost add = label_hits(node.label@).map_values(|k: int| (i as int, k));
        proof {
            assert forall|t: int| 0 <= t < base.len() implies (base + add)[t] == base[t] && 0 <= #[trigger] base[t].0 < i by {
                assert(is_clr2_warning(warnings@[t], nodes@[base[t].0], base[t].1));
                assert(0 <= clr2_pairs(nodes@.subrange(0, i as int))[t].0 < i);
            }
        }
        let mut h: usize = 0;
        while h < hits.len()
            invariant
                i < nodes@.len(),
                *node == nodes@[i as int],
                "node_id"@ != "conjunction"@,
                h <= hits@.len(),
                hits@.len() == label_hits(node.label@).len(),
                add == label_hits(node.label@).map_values(|k: int| (i as int, k)),
                forall|t: int| 0 <= t < hits@.len() ==> #[trigger] hits@[t] as int == label_hits(node.label@)[t] && hits@[t] < 5,
                warnings@.len() == base.len() + h,
                forall|t: int| 0 <= t < warnings@.len() ==> 0 <= (base + add)[t].0 <= i
                    && is_clr2_warning(#[trigger] warnings@[t], nodes@[(base + add)[t].0], (base + add)[t].1),
                forall|t: int| 0 <= t < base.len() ==> 0 <= #[trigger] base[t].0 < i,
            decreases hits@.len() - h,
        {
            let (_, name) = conjunction(hits[h]);
            let detail = cat5("Causal conjunction '", name, "' detected in node '", node.id.as_str(), "'. Consider splitting.");
            let w = OutputWarning::new("CLR2_CONJUNCTION_DETECTED", detail)
                .with_context("node_id", ContextValue::Str(node.id.clone()))
                .with_context("conjunction", ContextValue::Str(owned(name)));
            warnings.push(w);
            proof {
                assert((base + add)[base.len() + h] == (i as int, label_hits(node.label@)[h as int]));
            }
            h = h + 1;
        }
        proof {
            let s = nodes@.subrange(0, i + 1);
            assert(s.drop_last() =~= nodes@.subrange(0, i as int));
            assert(s.last() == nodes@[i as int]);
            assert(clr2_pairs(s) == base + add);
        }
        i = i + 1;
    }
    proof {
        assert(nodes@.subrange(0, nodes@.len() as int) =~= nodes@);
        assert forall|t: int| 0 <= t < warnings@.len() implies 0 <= #[trigger] clr2_pairs(nodes@)[t].0 < nodes@.len()
            && is_clr2_warning(warnings@[t], nodes@[clr2_pairs(nodes@)[t].0], clr2_pairs(nodes@)[t].1) by {
            let w = warnings@[t];
            assert(0 <= clr2_pairs(nodes@.subrange(0, i as int))[t].0 < i);
            assert(clr2_pairs(nodes@.subrange(0, i as int)) == clr2_pairs(nodes@));
            assert(i == nodes@.len());
        }
    }
    warnings
}

// ---------------------------------------------------------------- CLR#4

/// The edges whose effect is `t`.
pub open spec fn incoming(edges: Seq<Edge>, t: Seq<char>) -> Seq<Edge>
    decreases edges.len(),
{
    if edges.len() == 0 {
        seq![]
    } else {
        incoming(edges.drop_last(), t) + if edges.last().to@ == t { seq![edges.last()] } else { seq![] }
    }
}

/// `t` has exactly one incoming edge, and it is SINGLE.
pub open spec fn insufficient(edges: Seq<Edge>, t: Seq<char>) -> bool {
    incoming(edges, t).len() == 1 && incoming(edges, t)[0].operator == Operator::Single
}

pub open spec fn is_clr4_warning(w: OutputWarning, node: Seq<char>, edge: Seq<char>) -> bool {
    &&& w.code@ == "CLR4_INSUFFICIENT_CAUSE"@
    &&& w.detail@ == "Node '"@ + node + "' has only 1 incoming SINGLE edge \u{2014} candidate for insufficiency (CLR#4)"@
    &&& context_get(w.context@, "node_id"@) == Some(ContextValueView::Str(node))
    &&& context_get(w.context@, "edge_id"@) == Some(ContextValueView::Str(edge))
}

proof fn lemma_incoming_prefix(edges: Seq<Edge>, t: Seq<char>, i: int)
    requires 0 <= i < edges.len(),
    ensures incoming(edges.subrange(0, i + 1), t) == incoming(edges.subrange(0, i), t)
        + if edges[i].to@ == t { seq![edges[i]] } else { seq![] },
{
    let s = edges.subrange(0, i + 1);
    assert(s.drop_last() =~= edges.subrange(0, i));
    assert(s.last() == edges[i]);
}

/// The number of edges into `t`, and the first of them.
fn incoming_summary(edges: &Vec<Edge>, t: &String) -> (r: (usize, usize))
    ensures
        r.0 == incoming(edges@, t@).len(),
        r.0 > 0 ==> r.1 < edges@.len() && edges@[r.1 as int] == incoming(edges@, t@)[0],
{
    let mut count: usize = 0;
    let mut first: usize = 0;
    let mut i: usize = 0;
    while i < edges.len()
        invariant
            i <= edges@.len(),
            count == incoming(edges@.subrange(0, i as int), t@).len(),
            count <= i,
            count > 0 ==> first < edges@.len() && edges@[first as int] == incoming(edges@.subrange(0, i as int), t@)[0],
        decreases edges@.len() - i,
    {
        proof { lemma_incoming_prefix(edges@, t@, i as int); }
        if edges[i].to == *t {
            if count == 0 {
                first = i;
            }
            count = count + 1;
        }
        i = i + 1;
    }
    assert(edges@.subrange(0, edges@.len() as int) =~= edges@);
    (count, first)
}

/// The distinct effects of the edges, in order of first occurrence.
fn distinct_targets(edges: &Vec<Edge>) -> (r: Vec<String>)
    ensures
        forall|a: int, b: int| 0 <= a < b < r@.len() ==> #[trigger] r@[a]@ != #[trigger] r@[b]@,
        forall|t: Seq<char>| has_id(r@, t) <==> exists|i: int| 0 <= i < edges@.len() && #[trigger] edges@[i].to@ == t,
{
    let mut r: Vec<String> = Vec::new();
    let mut i: usize = 0;
    while i < edges.len()
        invariant
            i <= edges@.len(),
            forall|a: int, b: int| 0 <= a < b < r@.len() ==> #[trigger] r@[a]@ != #[trigger] r@[b]@,
            forall|t: Seq<char>| has_id(r@, t) <==> exists|k: int| 0 <= k < i && #[trigger] edges@[k].to@ == t,
        decreases edges@.len() - i,
    {
        let ghost pre = r@;
        if !crate::strutil::contains_string(&r, &edges[i].to) {
            r.push(edges[i].to.clone());
            proof {
                assert forall|t: Seq<char>| has_id(r@, t) <==> exists|k: int| 0 <= k < i + 1 && #[trigger] edges@[k].to@ == t by {
                    if has_id(r@, t) {
                        let a = choose|a: int| 0 <= a < r@.len() && #[trigger] r@[a]@ == t;
                        if a < pre.len() { assert(has_id(pre, t)); }
                    }
                    if exists|k: int| 0 <= k < i + 1 && #[trigger] edges@[k].to@ == t {
                        let k = choose|k: int| 0 <= k < i + 1 && #[trigger] edges@[k].to@ == t;
                        if k < i { assert(has_id(pre, t)); let a = choose|a: int| 0 <= a < pre.len() && #[trigger] pre[a]@ == t; assert(r@[a]@ == t); }
                        else { assert(r@[pre.len() as int]@ == t); }
                    }
                }
            }
        } else {
            proof {
                assert forall|t: Seq<char>| has_id(r@, t) <==> exists|k: int| 0 <= k < i + 1 && #[trigger] edges@[k].to@ == t by {
                    if exists|k: int| 0 <= k < i + 1 && #[trigger] edges@[k].to@ == t {
                        let k = choose|k: int| 0 <= k < i + 1 && #[trigger] edges@[k].to@ == t;
                        if k == i { assert(has_id(r@, edges@[i as int].to@)); }
                    }
                }
            }
        }
        i = i + 1;
    }
    r
}

/// The node a warning names under `node_id`.
pub open spec fn warned_node(w: OutputWarning) -> Seq<char> {
    match context_get(w.context@, "node_id"@) {
        Some(ContextValueView::Str(s)) => s,
        _ => Seq::empty(),
    }
}

/// CLR#4: nodes with exactly one incoming edge, when that edge is SINGLE,
/// are candidates for insufficiency. One warning per such node (naming it
/// and its edge), each node once.
pub fn lint_clr4_insufficiency(edges: &Vec<Edge>) -> (r: Vec<OutputWarning>)
    ensures
        forall|t: int| 0 <= t < r@.len() ==> insufficient(edges@, warned_node(#[trigger] r@[t]))
            && is_clr4_warning(r@[t], warned_node(r@[t]), incoming(edges@, warned_node(r@[t]))[0].id@),
        forall|n: Seq<char>| insufficient(edges@, n) ==>
            exists|t: int| 0 <= t < r@.len() && #[trigger] warned_node(r@[t]) == n,
        forall|a: int, b: int| 0 <= a < b < r@.len() ==> warned_node(#[trigger] r@[a]) != warned_node(#[trigger] r@[b]),
        forall|t: int| 0 <= t < r@.len() ==> exists|k: int| 0 <= k < edges@.len()
            && #[trigger] edges@[k].to@ == warned_node(#[trigger] r@[t]),
        forall|t: int, k: int| #![trigger r@[t], edges@[k]] 0 <= t < r@.len() && 0 <= k < edges@.len()
            && edges@[k].to@ == warned_node(r@[t]) ==> {
                &&& edges@[k].operator == Operator::Single
                &&& context_get(r@[t].context@, "edge_id"@) == Some(ContextValueView::Str(edges@[k].id@))
                &&& forall|k2: int| 0 <= k2 < edges@.len() && #[trigger] edges@[k2].to@ == edges@[k].to@ ==> k2 == k
            },
        forall|k: int| 0 <= k < edges@.len() && edges@[k].operator == Operator::Single
            && (forall|k2: int| 0 <= k2 < edges@.len() && #[trigger] edges@[k2].to@ == edges@[k].to@ ==> k2 == k)
            ==> exists|t: int| 0 <= t < r@.len() && warned_node(#[trigger] r@[t]) == #[trigger] edges@[k].to@,
{
    proof {
        reveal_strlit("node_id");
        reveal_strlit("edge_id");
        assert("node_id"@[0] != "edge_id"@[0]);
    }
    let targets = distinct_targets(edges);
    let mut warnings: Vec<OutputWarning> = Vec::new();
    let ghost mut named: Seq<Seq<char>> = seq![];
    let mut k: usize = 0;
    while k < targets.len()
        invariant
            k <= targets@.len(),
            "node_id"@ != "edge_id"@,
            forall|a: int, b: int| 0 <= a < b < targets@.len() ==> #[trigger] targets@[a]@ != #[trigger] targets@[b]@,
            forall|t: Seq<char>| has_id(targets@, t) <==> exists|i: int| 0 <= i < edges@.len() && #[trigger] edges@[i].to@ == t,
            named.len() == warnings@.len(),
            forall|t: int| 0 <= t < warnings@.len() ==> is_clr4_warning(#[trigger] warnings@[t], named[t], incoming(edges@, named[t])[0].id@)
                && insufficient(edges@, named[t]),
            forall|t: int| 0 <= t < named.len() ==> exists|q: int| 0 <= q < k && #[trigger] named[t] == targets@[q]@,
            forall|a: int, b: int| 0 <= a < b < named.len() ==> #[trigger] named[a] != #[trigger] named[b],
            forall|q: int| 0 <= q < k && insufficient(edges@, #[trigger] targets@[q]@) ==> exists|t: int| 0 <= t < named.len() && named[t] == targets@[q]@,
        decreases targets@.len() - k,
    {
        let (count, first) = incoming_summary(edges, &targets[k]);
        if count == 1 && edges[first].operator == Operator::Single {
            let detail = cat3("Node '", targets[k].as_str(), "' has only 1 incoming SINGLE edge \u{2014} candidate for insufficiency (CLR#4)");
            let w = OutputWarning::new("CLR4_INSUFFICIENT_CAUSE", detail)
                .with_context("node_id", ContextValue::Str(targets[k].clone()))
                .with_context("edge_id", ContextValue::Str(edges[first].id.clone()));
            proof {
                assert(is_clr4_warning(w, targets@[k as int]@, incoming(edges@, targets@[k as int]@)[0].id@));
                assert(insufficient(edges@, targets@[k as int]@));
            }
            let ghost old_w = warnings@;
            warnings.push(w);
            proof {
                let old_named = named;
                named = named.push(targets@[k as int]@);
                assert forall|t: int| 0 <= t < warnings@.len() implies is_clr4_warning(#[trigger] warnings@[t], named[t], incoming(edges@, named[t])[0].id@)
                    && insufficient(edges@, named[t]) by {
                    if t < old_w.len() {
                        assert(warnings@[t] == old_w[t]);
                        assert(named[t] == old_named[t]);
                        assert(is_clr4_warning(old_w[t], old_named[t], incoming(edges@, old_named[t])[0].id@));
                    }
                }
                assert forall|a: int, b: int| 0 <= a < b < named.len() implies #[trigger] named[a] != #[trigger] named[b] by {
                    if b == named.len() - 1 {
                        let q = choose|q: int| 0 <= q < k && #[trigger] old_named[a] == targets@[q]@;
                    }
                }
                assert forall|t: int| 0 <= t < named.len() implies exists|q: int| 0 <= q < k + 1 && #[trigger] named[t] == targets@[q]@ by {
                    if t < old_named.len() {
                        let q = choose|q: int| 0 <= q < k && #[trigger] old_named[t] == targets@[q]@;
                        assert(named[t] == targets@[q]@);
                    } else {
                        assert(named[t] == targets@[k as int]@);
                    }
                }
                assert forall|q: int| 0 <= q < k + 1 && insufficient(edges@, #[trigger] targets@[q]@) implies exists|t: int| 0 <= t < named.len() && named[t] == targets@[q]@ by {
                    if q == k {
                        assert(named[named.len() - 1] == targets@[q]@);
                    } else {
                        let t = choose|t: int| 0 <= t < old_named.len() && old_named[t] == targets@[q]@;
                        assert(named[t] == targets@[q]@);
                    }
                }
            }
        }
        k = k + 1;
    }
    proof {
        assert forall|t: int| 0 <= t < warnings@.len() implies insufficient(edges@, warned_node(#[trigger] warnings@[t]))
            && is_clr4_warning(warnings@[t], warned_node(warnings@[t]), incoming(edges@, warned_node(warnings@[t]))[0].id@) by {
            assert(warned_node(warnings@[t]) == named[t]);
        }
        assert forall|n: Seq<char>| insufficient(edges@, n) implies
            exists|t: int| 0 <= t < warnings@.len() && #[trigger] warned_node(warnings@[t]) == n by {
            lemma_incoming_nonempty(edges@, n);
            let i = choose|i: int| 0 <= i < edges@.len() && #[trigger] edges@[i].to@ == n;
            assert(has_id(targets@, n));
            let q = choose|q: int| 0 <= q < targets@.len() && #[trigger] targets@[q]@ == n;
            let t = choose|t: int| 0 <= t < named.len() && named[t] == targets@[q]@;
            assert(warned_node(warnings@[t]) == named[t]);
        }
        assert forall|a: int, b: int| 0 <= a < b < warnings@.len() implies warned_node(#[trigger] warnings@[a]) != warned_node(#[trigger] warnings@[b]) by {
            assert(warned_node(warnings@[a]) == named[a]);
            assert(warned_node(warnings@[b]) == named[b]);
        }
        assert forall|t: int| 0 <= t < warnings@.len() implies exists|k: int| 0 <= k < edges@.len()
            && #[trigger] edges@[k].to@ == warned_node(#[trigger] warnings@[t]) by {
            law_clr4_single_fed_only(edges@, warned_node(warnings@[t]));
        }
        assert forall|t: int, k: int| #![trigger warnings@[t], edges@[k]] 0 <= t < warnings@.len() && 0 <= k < edges@.len()
            && edges@[k].to@ == warned_node(warnings@[t]) implies {
                &&& edges@[k].operator == Operator::Single
                &&& context_get(warnings@[t].context@, "edge_id"@) == Some(ContextValueView::Str(edges@[k].id@))
                &&& forall|k2: int| 0 <= k2 < edges@.len() && #[trigger] edges@[k2].to@ == edges@[k].to@ ==> k2 == k
            } by {
            let n = warned_node(warnings@[t]);
            law_clr4_single_fed_only(edges@, n);
            let i = choose|i: int| 0 <= i < edges@.len() && #[trigger] edges@[i].to@ == n
                && edges@[i].operator == Operator::Single
                && forall|k3: int| 0 <= k3 < edges@.len() && #[trigger] edges@[k3].to@ == n ==> k3 == i;
            assert(k == i);
            lemma_incoming_sole(edges@, n, i);
        }
        assert forall|k: int| 0 <= k < edges@.len() && edges@[k].operator == Operator::Single
            && (forall|k2: int| 0 <= k2 < edges@.len() && #[trigger] edges@[k2].to@ == edges@[k].to@ ==> k2 == k)
            implies exists|t: int| 0 <= t < warnings@.len() && warned_node(#[trigger] warnings@[t]) == #[trigger] edges@[k].to@ by {
            law_clr4_single_fed_only(edges@, edges@[k].to@);
        }
    }
    warnings
}

proof fn lemma_incoming_nonempty(edges: Seq<Edge>, t: Seq<char>)
    requires incoming(edges, t).len() > 0,
    ensures exists|i: int| 0 <= i < edges.len() && #[trigger] edges[i].to@ == t,
    decreases edges.len(),
{
    if edges.last().to@ == t {
        assert(edges[edges.len() - 1].to@ == t);
    } else {
        lemma_incoming_nonempty(edges.drop_last(), t);
        let i = choose|i: int| 0 <= i < edges.len() - 1 && #[trigger] edges.drop_last()[i].to@ == t;
        assert(edges[i].to@ == t);
    }
}

/// No edge of `edges` points to `t`.
proof fn lemma_incoming_none(edges: Seq<Edge>, t: Seq<char>)
    ensures
        incoming(edges, t).len() == 0 <==> forall|i: int| 0 <= i < edges.len() ==> #[trigger] edges[i].to@ != t,
    decreases edges.len(),
{
    if edges.len() > 0 {
        let p = edges.drop_last();
        lemma_incoming_none(p, t);
        assert forall|i: int| 0 <= i < p.len() implies #[trigger] p[i] == edges[i] by {}
        if forall|i: int| 0 <= i < edges.len() ==> #[trigger] edges[i].to@ != t {
            assert(edges[edges.len() - 1].to@ != t);
            assert forall|i: int| 0 <= i < p.len() implies #[trigger] p[i].to@ != t by { assert(edges[i].to@ != t); }
        }
        if incoming(edges, t).len() == 0 {
            assert forall|i: int| 0 <= i < edges.len() implies #[trigger] edges[i].to@ != t by {
                if i < p.len() { assert(p[i].to@ != t); }
            }
        }
    }
}

/// `edges[i]` is the only edge of `edges` that points to `t`.
proof fn lemma_incoming_sole(edges: Seq<Edge>, t: Seq<char>, i: int)
    requires
        0 <= i < edges.len(),
        edges[i].to@ == t,
        forall|k: int| 0 <= k < edges.len() && #[trigger] edges[k].to@ == t ==> k == i,
    ensures
        incoming(edges, t).len() == 1,
        incoming(edges, t)[0] == edges[i],
    decreases edges.len(),
{
    let p = edges.drop_last();
    assert forall|k: int| 0 <= k < p.len() implies #[trigger] p[k] == edges[k] by {}
    if i == edges.len() - 1 {
        assert forall|k: int| 0 <= k < p.len() implies #[trigger] p[k].to@ != t by {
            assert(edges[k].to@ == p[k].to@);
        }
        lemma_incoming_none(p, t);
    } else {
        assert(edges[edges.len() - 1].to@ != t);
        assert forall|k: int| 0 <= k < p.len() && #[trigger] p[k].to@ == t implies k == i by {
            assert(edges[k].to@ == t);
        }
        lemma_incoming_sole(p, t, i);
    }
}

/// One edge points to `t`: it is the first (and only) incoming edge.
proof fn lemma_incoming_one(edges: Seq<Edge>, t: Seq<char>)
    requires incoming(edges, t).len() == 1,
    ensures
        exists|i: int| 0 <= i < edges.len() && #[trigger] edges[i].to@ == t && incoming(edges, t)[0] == edges[i]
            && forall|k: int| 0 <= k < edges.len() && #[trigger] edges[k].to@ == t ==> k == i,
    decreases edges.len(),
{
    let p = edges.drop_last();
    let l = edges.len() - 1;
    assert forall|k: int| 0 <= k < p.len() implies #[trigger] p[k] == edges[k] by {}
    if edges[l].to@ == t {
        lemma_incoming_none(p, t);
        assert forall|k: int| 0 <= k < edges.len() && #[trigger] edges[k].to@ == t implies k == l by {
            if k < l { assert(p[k].to@ != t); }
        }
        assert(incoming(edges, t)[0] == edges[l]);
    } else {
        lemma_incoming_one(p, t);
        let i = choose|i: int| 0 <= i < p.len() && #[trigger] p[i].to@ == t && incoming(p, t)[0] == p[i]
            && forall|k: int| 0 <= k < p.len() && #[trigger] p[k].to@ == t ==> k == i;
        assert(edges[i].to@ == t);
        assert forall|k: int| 0 <= k < edges.len() && #[trigger] edges[k].to@ == t implies k == i by {
            if k < l { assert(p[k].to@ == t); }
        }
    }
}

/// CLR#4 flags exactly the nodes fed by a single edge that is SINGLE: a node
/// is a candidate for insufficiency if and only if one edge of the tree
/// points to it and that edge's operator is SINGLE. A node whose only
/// incoming edge is AND, OR, MAG or XOR, or that has two incoming edges or
/// none, is not one.
pub proof fn law_clr4_single_fed_only(edges: Seq<Edge>, n: Seq<char>)
    ensures
        insufficient(edges, n) <==> exists|i: int| 0 <= i < edges.len() && #[trigger] edges[i].to@ == n
            && edges[i].operator == Operator::Single
            && forall|k: int| 0 <= k < edges.len() && #[trigger] edges[k].to@ == n ==> k == i,
{
    if insufficient(edges, n) {
        lemma_incoming_one(edges, n);
    }
    if exists|i: int| 0 <= i < edges.len() && #[trigger] edges[i].to@ == n
        && edges[i].operator == Operator::Single
        && forall|k: int| 0 <= k < edges.len() && #[trigger] edges[k].to@ == n ==> k == i {
        let i = choose|i: int| 0 <= i < edges.len() && #[trigger] edges[i].to@ == n
            && edges[i].operator == Operator::Single
            && forall|k: int| 0 <= k < edges.len() && #[trigger] edges[k].to@ == n ==> k == i;
        lemma_incoming_sole(edges, n, i);
    }
}

// ---------------------------------------------------------------- CLR#4/#5

/// The AND edges with more than four inputs, in edge order.
pub open spec fn excessive_and(edges: Seq<Edge>) -> Seq<Edge>
    decreases edges.len(),
{
    if edges.len() == 0 {
        seq![]
    } else {
        excessive_and(edges.drop_last()) + if edges.last().operator == Operator::And && edges.last().from@.len() > 4 {
            seq![edges.last()]
        } else {
            seq![]
        }
    }
}

pub open spec fn is_clr4_5_warning(w: OutputWarning, e: Edge) -> bool {
    &&& w.code@ == "CLR4_5_EXCESSIVE_AND_INPUTS"@
    &&& w.detail@ == "Edge '"@ + e.id@ + "' has "@ + decimal(e.from@.len())
            + " inputs with AND operator \u{2014} possible mix of independent causes (CLR#4/#5)"@
    &&& context_get(w.context@, "edge_id"@) == Some(ContextValueView::Str(e.id@))
    &&& context_get(w.context@, "input_count"@) == Some(ContextValueView::Num(e.from@.len() as u64))
}

/// CLR#4/#5: AND edges with more than four inputs may mix independent
/// causes; one warning per such edge, in edge order.
pub fn lint_clr4_5_excessive_and(edges: &Vec<Edge>) -> (r: Vec<OutputWarning>)
    ensures
        r@.len() == excessive_and(edges@).len(),
        forall|t: int| 0 <= t < r@.len() ==> is_clr4_5_warning(#[trigger] r@[t], excessive_and(edges@)[t]),
{
    proof {
        reveal_strlit("edge_id");
        reveal_strlit("input_count");
        assert("edge_id"@[0] != "input_count"@[0]);
    }
    let mut warnings: Vec<OutputWarning> = Vec::new();
    let mut i: usize = 0;
    while i < edges.len()
        invariant
            i <= edges@.len(),
            "edge_id"@ != "input_count"@,
            warnings@.len() == excessive_and(edges@.subrange(0, i as int)).len(),
            forall|t: int| 0 <= t < warnings@.len() ==> is_clr4_5_warning(#[trigger] warnings@[t], excessive_and(edges@.subrange(0, i as int))[t]),
        decreases edges@.len() - i,
    {
        let e = &edges[i];
        let ghost before = excessive_and(edges@.subrange(0, i as int));
        proof {
            let s = edges@.subrange(0, i + 1);
            assert(s.drop_last() =~= edges@.subrange(0, i as int));
            assert(s.last() == edges@[i as int]);
        }
        if e.operator == Operator::And && e.from.len() > 4 {
            let n = u64_to_decimal(e.from.len() as u64);
            let mut detail = cat3("Edge '", e.id.as_str(), "' has ");
            detail.append(n.as_str());
            detail.append(" inputs with AND operator \u{2014} possible mix of independent causes (CLR#4/#5)");
            let w = OutputWarning::new("CLR4_5_EXCESSIVE_AND_INPUTS", detail)
                .with_context("edge_id", ContextValue::Str(e.id.clone()))
                .with_context("input_count", ContextValue::Num(e.from.len() as u64));
            warnings.push(w);
            proof { assert(excessive_and(edges@.subrange(0, i + 1)) =~= before.push(*e)); }
        } else {
            proof { assert(excessive_and(edges@.subrange(0, i + 1)) =~= before); }
        }
        i = i + 1;
    }
    assert(edges@.subrange(0, edges@.len() as int) =~= edges@);
    warnings
}

// ---------------------------------------------------------------- CLR#6 / CLR#7

/// The first node of the list with id `id`.
pub open spec fn find_node(nodes: Seq<Node>, id: Seq<char>) -> Option<Node>
    decreases nodes.len(),
{
    if nodes.len() == 0 {
        None
    } else if nodes[0].id@ == id {
        Some(nodes[0])
    } else {
        find_node(nodes.drop_first(), id)
    }
}

pub open spec fn is_high_level(t: NodeType) -> bool {
    t == NodeType::Ude || t == NodeType::De
}

pub open spec fn is_low_level(t: NodeType) -> bool {
    t == NodeType::Rc || t == NodeType::Int
}

/// The edge points to a low-level known node and all its causes are known
/// high-level nodes.
pub open spec fn type_inversion(e: Edge, nodes: Seq<Node>) -> bool {
    &&& find_node(nodes, e.to@) matches Some(t) && is_low_level(t.node_type)
    &&& forall|j: int| 0 <= j < e.from@.len() ==>
            (find_node(nodes, #[trigger] e.from@[j]@) matches Some(f) && is_high_level(f.node_type))
}

pub open spec fn inversions(edges: Seq<Edge>, nodes: Seq<Node>) -> Seq<Edge>
    decreases edges.len(),
{
    if edges.len() == 0 {
        seq![]
    } else {
        inversions(edges.drop_last(), nodes) + if type_inversion(edges.last(), nodes) { seq![edges.last()] } else { seq![] }
    }
}

/// Debug name of a node type.
pub open spec fn node_type_name(t: NodeType) -> Seq<char> {
    match t {
        NodeType::Ude => "Ude"@, NodeType::Rc => "Rc"@, NodeType::Inj => "Inj"@, NodeType::Nc => "Nc"@,
        NodeType::Goal => "Goal"@, NodeType::Obj => "Obj"@, NodeType::Want => "Want"@, NodeType::Obs => "Obs"@,
        NodeType::Io => "Io"@, NodeType::Int => "Int"@, NodeType::De => "De"@, NodeType::Req => "Req"@,
        NodeType::Pre => "Pre"@,
    }
}

pub fn type_debug_name(t: NodeType) -> (r: &'static str)
    ensures r@ == node_type_name(t),
{
    match t {
        NodeType::Ude => "Ude", NodeType::Rc => "Rc", NodeType::Inj => "Inj", NodeType::Nc => "Nc",
        NodeType::Goal => "Goal", NodeType::Obj => "Obj", NodeType::Want => "Want", NodeType::Obs => "Obs",
        NodeType::Io => "Io", NodeType::Int => "Int", NodeType::De => "De", NodeType::Req => "Req",
        NodeType::Pre => "Pre",
    }
}

pub open spec fn is_clr6_warning(w: OutputWarning, e: Edge, nodes: Seq<Node>) -> bool {
    &&& w.code@ == "CLR6_TYPE_INVERSION"@
    &&& w.detail@ == "Edge '"@ + e.id@ + "': high-level node(s) in 'from' pointing to low-level node '"@
            + e.to@ + "' \u{2014} suspicious inversion (CLR#6)"@
    &&& context_get(w.context@, "edge_id"@) == Some(ContextValueView::Str(e.id@))
    &&& context_get(w.context@, "to_node"@) == Some(ContextValueView::Str(e.to@))
    &&& (find_node(nodes, e.to@) matches Some(t)
            && context_get(w.context@, "to_type"@) == Some(ContextValueView::Str(node_type_name(t.node_type))))
}

/// Index of the first node with the given id.
pub fn find_node_index(nodes: &Vec<Node>, id: &String) -> (r: Option<usize>)
    ensures
        match r {
            Some(i) => i < nodes@.len() && find_node(nodes@, id@) == Some(nodes@[i as int]),
            None => find_node(nodes@, id@) is None,
        },
{
    let mut i: usize = 0;
    assert(nodes@.subrange(0, nodes@.len() as int) =~= nodes@);
    while i < nodes.len()
        invariant
            i <= nodes@.len(),
            find_node(nodes@, id@) == find_node(nodes@.subrange(i as int, nodes@.len() as int), id@),
        decreases nodes@.len() - i,
    {
        proof {
            let s = nodes@.subrange(i as int, nodes@.len() as int);
            assert(s.drop_first() =~= nodes@.subrange(i + 1, nodes@.len() as int));
            assert(s[0] == nodes@[i as int]);
        }
        if nodes[i].id == *id {
            return Some(i);
        }
        i = i + 1;
    }
    None
}

fn all_from_high(e: &Edge, nodes: &Vec<Node>) -> (r: bool)
    ensures r == forall|j: int| 0 <= j < e.from@.len() ==>
        (find_node(nodes@, #[trigger] e.from@[j]@) matches Some(f) && is_high_level(f.node_type)),
{
    let mut j: usize = 0;
    while j < e.from.len()
        invariant
            j <= e.from@.len(),
            forall|q: int| 0 <= q < j ==>
                (find_node(nodes@, #[trigger] e.from@[q]@) matches Some(f) && is_high_level(f.node_type)),
        decreases e.from@.len() - j,
    {
        match find_node_index(nodes, &e.from[j]) {
            Some(k) => {
                let t = nodes[k].node_type;
                if !(t == NodeType::Ude || t == NodeType::De) {
                    return false;
                }
            },
            None => {
                return false;
            },
        }
        j = j + 1;
    }
    true
}

/// CLR#6: type inversion \u{2014} high-level nodes (UDE, DE) as all the causes
/// of a low-level node (RC, INT). One warning per such edge, in edge order;
/// nodes are looked up in `node_map` by id.
pub fn lint_clr6_type_inversion(edges: &Vec<Edge>, node_map: &Vec<Node>) -> (r: Vec<OutputWarning>)
    ensures
        r@.len() == inversions(edges@, node_map@).len(),
        forall|t: int| 0 <= t < r@.len() ==> is_clr6_warning(#[trigger] r@[t], inversions(edges@, node_map@)[t], node_map@),
{
    proof {
        reveal_strlit("edge_id");
        reveal_strlit("to_node");
        reveal_strlit("to_type");
        assert("edge_id"@[0] != "to_node"@[0]);
        assert("edge_id"@[0] != "to_type"@[0]);
        assert("to_node"@[3] != "to_type"@[3]);
    }
    let mut warnings: Vec<OutputWarning> = Vec::new();
    let mut i: usize = 0;
    while i < edges.len()
        invariant
            i <= edges@.len(),
            "edge_id"@ != "to_node"@, "edge_id"@ != "to_type"@, "to_node"@ != "to_type"@,
            warnings@.len() == inversions(edges@.subrange(0, i as int), node_map@).len(),
            forall|t: int| 0 <= t < warnings@.len() ==> is_clr6_warning(#[trigger] warnings@[t],
                inversions(edges@.subrange(0, i as int), node_map@)[t], node_map@),
        decreases edges@.len() - i,
    {
        let e = &edges[i];
        let ghost before = inversions(edges@.subrange(0, i as int), node_map@);
        proof {
            let s = edges@.subrange(0, i + 1);
            assert(s.drop_last() =~= edges@.subrange(0, i as int));
            assert(s.last() == edges@[i as int]);
        }
        let mut hit = false;
        let mut to_type = NodeType::Ude;
        match find_node_index(node_map, &e.to) {
            Some(k) => {
                let t = node_map[k].node_type;
                if (t == NodeType::Rc || t == NodeType::Int) && all_from_high(e, node_map) {
                    hit = true;
                    to_type = t;
                }
            },
            None => {},
        }
        if hit {
            let mut detail = cat3("Edge '", e.id.as_str(), "': high-level node(s) in 'from' pointing to low-level node '");
            detail.append(e.to.as_str());
            detail.append("' \u{2014} suspicious inversion (CLR#6)");
            let w = OutputWarning::new("CLR6_TYPE_INVERSION", detail)
                .with_context("edge_id", ContextValue::Str(e.id.clone()))
                .with_context("to_node", ContextValue::Str(e.to.clone()))
                .with_context("to_type", ContextValue::Str(owned(type_debug_name(to_type))));
            warnings.push(w);
            proof { assert(inversions(edges@.subrange(0, i + 1), node_map@) =~= before.push(*e)); }
        } else {
            proof { assert(inversions(edges@.subrange(0, i + 1), node_map@) =~= before); }
        }
        i = i + 1;
    }
    assert(edges@.subrange(0, edges@.len() as int) =~= edges@);
    warnings
}

/// How many times `id` occurs as a cause across the edges.
pub open spec fn outgoing_count(edges: Seq<Edge>, id: Seq<char>) -> nat
    decreases edges.len(),
{
    if edges.len() == 0 {
        0
    } else {
        outgoing_count(edges.drop_last(), id) + occurrences(edges.last().from@, id, edges.last().from@.len() as int)
    }
}

pub open spec fn occurrences(v: Seq<String>, id: Seq<char>, j: int) -> nat
    decreases j,
{
    if j <= 0 { 0 } else { occurrences(v, id, j - 1) + if v[j - 1]@ == id { 1nat } else { 0nat } }
}

pub open spec fn cap2(n: nat) -> nat {
    if n < 2 { n } else { 2 }
}

/// The number of occurrences of `id` as a cause, counted up to two.
fn count_outgoing_capped(edges: &Vec<Edge>, id: &String) -> (r: u64)
    ensures r == cap2(outgoing_count(edges@, id@)),
{
    let mut count: u64 = 0;
    let mut i: usize = 0;
    while i < edges.len()
        invariant
            i <= edges@.len(),
            count == cap2(outgoing_count(edges@.subrange(0, i as int), id@)),
        decreases edges@.len() - i,
    {
        let e = &edges[i];
        let ghost base = outgoing_count(edges@.subrange(0, i as int), id@);
        let mut j: usize = 0;
        while j < e.from.len()
            invariant
                j <= e.from@.len(),
                count == cap2(base + occurrences(e.from@, id@, j as int)),
            decreases e.from@.len() - j,
        {
            if e.from[j] == *id && count < 2 {
                count = count + 1;
            }
            j = j + 1;
        }
        proof {
            let s = edges@.subrange(0, i + 1);
            assert(s.drop_last() =~= edges@.subrange(0, i as int));
            assert(s.last() == edges@[i as int]);
        }
        i = i + 1;
    }
    assert(edges@.subrange(0, edges@.len() as int) =~= edges@);
    count
}

pub open spec fn is_clr7_warning(w: OutputWarning, id: Seq<char>, count: nat) -> bool {
    &&& w.code@ == "CLR7_INTANGIBLE_NO_PREDICTED"@
    &&& w.detail@ == "Intangible node '"@ + id + "' has "@ + decimal(count)
            + " outgoing edge(s) \u{2014} needs at least 2 for predicted effect verification (CLR#7)"@
    &&& context_get(w.context@, "node_id"@) == Some(ContextValueView::Str(id))
    &&& context_get(w.context@, "outgoing_edge_count"@) == Some(ContextValueView::Num(count as u64))
}

/// A node that is intangible and causes fewer than two edges.
pub open spec fn lacks_predicted_effect(edges: Seq<Edge>, n: Node) -> bool {
    !n.observable && outgoing_count(edges, n.id@) < 2
}

pub open spec fn intangibles(edges: Seq<Edge>, nodes: Seq<Node>) -> Seq<Node>
    decreases nodes.len(),
{
    if nodes.len() == 0 {
        seq![]
    } else {
        intangibles(edges, nodes.drop_last()) + if lacks_predicted_effect(edges, nodes.last()) { seq![nodes.last()] } else { seq![] }
    }
}

/// CLR#7: intangible nodes (`observable: false`) with fewer than two
/// outgoing edges lack a predicted effect. One warning per such node of
/// `node_map`, with its outgoing count.
pub fn lint_clr7_intangible(edges: &Vec<Edge>, node_map: &Vec<Node>) -> (r: Vec<OutputWarning>)
    ensures
        r@.len() == intangibles(edges@, node_map@).len(),
        forall|t: int| 0 <= t < r@.len() ==> is_clr7_warning(#[trigger] r@[t], intangibles(edges@, node_map@)[t].id@,
            outgoing_count(edges@, intangibles(edges@, node_map@)[t].id@)),
{
    proof {
        reveal_strlit("node_id");
        reveal_strlit("outgoing_edge_count");
        assert("node_id"@[0] != "outgoing_edge_count"@[0]);
    }
    let mut warnings: Vec<OutputWarning> = Vec::new();
    let mut i: usize = 0;
    while i < node_map.len()
        invariant
            i <= node_map@.len(),
            "node_id"@ != "outgoing_edge_count"@,
            warnings@.len() == intangibles(edges@, node_map@.subrange(0, i as int)).len(),
            forall|t: int| 0 <= t < warnings@.len() ==> is_clr7_warning(#[trigger] warnings@[t],
                intangibles(edges@, node_map@.subrange(0, i as int))[t].id@,
                outgoing_count(edges@, intangibles(edges@, node_map@.subrange(0, i as int))[t].id@)),
        decreases node_map@.len() - i,
    {
        let node = &node_map[i];
        let ghost before = intangibles(edges@, node_map@.subrange(0, i as int));
        proof {
            let s = node_map@.subrange(0, i + 1);
            assert(s.drop_last() =~= node_map@.subrange(0, i as int));
            assert(s.last() == node_map@[i as int]);
        }
        let count = count_outgoing_capped(edges, &node.id);
        if !node.observable && count < 2 {
            let n = u64_to_decimal(count);
            let mut detail = cat3("Intangible node '", node.id.as_str(), "' has ");
            detail.append(n.as_str());
            detail.append(" outgoing edge(s) \u{2014} needs at least 2 for predicted effect verification (CLR#7)");
            let w = OutputWarning::new("CLR7_INTANGIBLE_NO_PREDICTED", detail)
                .with_context("node_id", ContextValue::Str(node.id.clone()))
                .with_context("outgoing_edge_count", ContextValue::Num(count));
            warnings.push(w);
            proof { assert(intangibles(edges@, node_map@.subrange(0, i + 1)) =~= before.push(*node)); }
        } else {
            proof { assert(intangibles(edges@, node_map@.subrange(0, i + 1)) =~= before); }
        }
        i = i + 1;
    }
    assert(node_map@.subrange(0, node_map@.len() as int) =~= node_map@);
    warnings
}

} // verus!
