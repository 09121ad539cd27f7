//! Reachability along the causal edges of a tree.
use vstd::prelude::*;
use crate::link::types::Edge;
use crate::strutil::{contains_string, has_id};
use crate::validate::dag::{has_edge, is_walk};

verus! {

/// `b` can be reached from `a` by following edges from cause to effect
/// (every node reaches itself).
pub open spec fn reaches(edges: Seq<Edge>, a: Seq<char>, b: Seq<char>) -> bool {
    exists|p: Seq<Seq<char>>| #[trigger] is_walk(edges, p) && p.len() >= 1 && p[0] == a && p[p.len() - 1] == b
}

/// Each `(cause, effect)` pair of the edges.
pub open spec fn has_arc(arcs: Seq<(String, String)>, a: Seq<char>, b: Seq<char>) -> bool {
    exists|k: int| 0 <= k < arcs.len() && #[trigger] arcs[k].0@ == a && arcs[k].1@ == b
}

/// A walk along arcs.
pub open spec fn arc_walk(arcs: Seq<(String, String)>, p: Seq<Seq<char>>) -> bool {
    forall|k: int| 0 <= k < p.len() - 1 ==> has_arc(arcs, #[trigger] p[k], p[k + 1])
}

pub open spec fn arc_reaches(arcs: Seq<(String, String)>, a: Seq<char>, b: Seq<char>) -> bool {
    exists|p: Seq<Seq<char>>| #[trigger] arc_walk(arcs, p) && p.len() >= 1 && p[0] == a && p[p.len() - 1] == b
}

/// The set is closed under the arcs.
pub open spec fn arc_closed(arcs: Seq<(String, String)>, s: Seq<String>) -> bool {
    forall|k: int| 0 <= k < arcs.len() && has_id(s, #[trigger] arcs[k].0@) ==> has_id(s, arcs[k].1@)
}

/// Number of arcs whose target lies outside the set.
pub open spec fn outside_count(arcs: Seq<(String, String)>, s: Seq<String>) -> nat
    decreases arcs.len(),
{
    if arcs.len() == 0 {
        0
    } else {
        outside_count(arcs.drop_last(), s) + if has_id(s, arcs.last().1@) { 0nat } else { 1nat }
    }
}

proof fn lemma_outside_count_mono(arcs: Seq<(String, String)>, s1: Seq<String>, s2: Seq<String>, w: int)
    requires
        forall|x: Seq<char>| has_id(s1, x) ==> has_id(s2, x),
        0 <= w < arcs.len(),
        !has_id(s1, arcs[w].1@),
        has_id(s2, arcs[w].1@),
    ensures outside_count(arcs, s2) < outside_count(arcs, s1),
    decreases arcs.len(),
{
    lemma_outside_count_le(arcs.drop_last(), s1, s2);
    if w < arcs.len() - 1 {
        lemma_outside_count_mono(arcs.drop_last(), s1, s2, w);
        assert(arcs.drop_last()[w] == arcs[w]);
    }
}

proof fn lemma_outside_count_le(arcs: Seq<(String, String)>, s1: Seq<String>, s2: Seq<String>)
    requires forall|x: Seq<char>| has_id(s1, x) ==> has_id(s2, x),
    ensures outside_count(arcs, s2) <= outside_count(arcs, s1),
    decreases arcs.len(),
{
    if arcs.len() > 0 {
        lemma_outside_count_le(arcs.drop_last(), s1, s2);
    }
}

proof fn lemma_walk_extend(arcs: Seq<(String, String)>, p: Seq<Seq<char>>, b: Seq<char>)
    requires arc_walk(arcs, p), p.len() >= 1, has_arc(arcs, p[p.len() - 1], b),
    ensures arc_walk(arcs, p.push(b)),
{
    let q = p.push(b);
    assert forall|k: int| 0 <= k < q.len() - 1 implies has_arc(arcs, #[trigger] q[k], q[k + 1]) by {
        if k < p.len() - 1 {
            assert(q[k] == p[k] && q[k + 1] == p[k + 1]);
        }
    }
}

proof fn lemma_closed_complete(arcs: Seq<(String, String)>, s: Seq<String>, p: Seq<Seq<char>>, k: int)
    requires
        arc_closed(arcs, s),
        arc_walk(arcs, p),
        p.len() >= 1,
        has_id(s, p[0]),
        0 <= k < p.len(),
    ensures has_id(s, p[k]),
    decreases k,
{
    if k > 0 {
        lemma_closed_complete(arcs, s, p, k - 1);
        assert(has_arc(arcs, p[k - 1], p[k]));
        let a = choose|a: int| 0 <= a < arcs.len() && #[trigger] arcs[a].0@ == p[k - 1] && arcs[a].1@ == p[k];
        assert(has_id(s, arcs[a].0@));
    }
}

/// The set of everything reachable from `start` along the arcs.
pub fn arc_closure(arcs: &Vec<(String, String)>, start: &String) -> (r: Vec<String>)
    ensures forall|x: Seq<char>| has_id(r@, x) <==> arc_reaches(arcs@, start@, x),
{
    let mut set: Vec<String> = Vec::new();
    set.push(start.clone());
    proof {
        let p = seq![start@];
        assert(arc_walk(arcs@, p));
        assert(set@[0]@ == start@);
    }
    loop
        invariant
            has_id(set@, start@),
            forall|x: Seq<char>| has_id(set@, x) ==> arc_reaches(arcs@, start@, x),
        decreases outside_count(arcs@, set@),
    {
        let ghost before = set@;
        let mut changed = false;
        let mut i: usize = 0;
        while i < arcs.len()
            invariant
                i <= arcs@.len(),
                has_id(set@, start@),
                forall|x: Seq<char>| has_id(set@, x) ==> arc_reaches(arcs@, start@, x),
                forall|x: Seq<char>| has_id(before, x) ==> has_id(set@, x),
                changed ==> outside_count(arcs@, set@) < outside_count(arcs@, before),
                !changed ==> set@ == before,
                !changed ==> forall|k: int| 0 <= k < i && has_id(set@, #[trigger] arcs@[k].0@) ==> has_id(set@, arcs@[k].1@),
            decreases arcs@.len() - i,
        {
            let b_in = contains_string(&set, &arcs[i].1);
            if !b_in {
                let a_in = contains_string(&set, &arcs[i].0);
                if a_in {
                    let ghost old_set = set@;
                    set.push(arcs[i].1.clone());
                    proof {
                        let a = arcs@[i as int].0@;
                        let b = arcs@[i as int].1@;
                        assert(has_arc(arcs@, a, b));
                        let p = choose|p: Seq<Seq<char>>| #[trigger] arc_walk(arcs@, p) && p.len() >= 1 && p[0] == start@ && p[p.len() - 1] == a;
                        lemma_walk_extend(arcs@, p, b);
                        assert(p.push(b)[0] == start@);
                        assert(arc_walk(arcs@, p.push(b)));
                        assert(p.push(b)[p.push(b).len() - 1] == b);
                        assert(arc_reaches(arcs@, start@, b));
                        assert forall|x: Seq<char>| has_id(old_set, x) implies has_id(set@, x) by {
                            let q = choose|q: int| 0 <= q < old_set.len() && #[trigger] old_set[q]@ == x;
                            assert(set@[q] == old_set[q]);
                        }
                        assert(set@[old_set.len() as int]@ == b);
                        assert forall|x: Seq<char>| has_id(set@, x) implies arc_reaches(arcs@, start@, x) by {
                            let q = choose|q: int| 0 <= q < set@.len() && #[trigger] set@[q]@ == x;
                            if q < old_set.len() {
                                assert(set@[q] == old_set[q]);
                                assert(has_id(old_set, x));
                            } else {
                                assert(x == b);
                            }
                        }
                        assert forall|x: Seq<char>| has_id(before, x) implies has_id(set@, x) by {
                            assert(has_id(old_set, x));
                        }
                        lemma_outside_count_mono(arcs@, old_set, set@, i as int);
                        if changed {
                            lemma_outside_count_le(arcs@, before, old_set);
                        } else {
                            lemma_outside_count_mono(arcs@, before, set@, i as int);
                        }
                    }
                    changed = true;
                }
            }
            i = i + 1;
        }
        if !changed {
            proof {
                assert forall|x: Seq<char>| arc_reaches(arcs@, start@, x) implies has_id(set@, x) by {
                    let p = choose|p: Seq<Seq<char>>| #[trigger] arc_walk(arcs@, p) && p.len() >= 1 && p[0] == start@ && p[p.len() - 1] == x;
                    lemma_closed_complete(arcs@, set@, p, p.len() - 1);
                }
            }
            return set;
        }
    }
}

/// Every `(cause, effect)` pair of the edges.
pub fn arcs_of(edges: &Vec<Edge>) -> (r: Vec<(String, String)>)
    ensures forall|a: Seq<char>, b: Seq<char>| has_arc(r@, a, b) <==> has_edge(edges@, a, b),
{
    let mut r: Vec<(String, String)> = Vec::new();
    let mut i: usize = 0;
    while i < edges.len()
        invariant
            i <= edges@.len(),
            forall|a: Seq<char>, b: Seq<char>| has_arc(r@, a, b) <==>
                exists|x: int, y: int| 0 <= x < i && 0 <= y < edges@[x].from@.len()
                    && #[trigger] edges@[x].from@[y]@ == a && edges@[x].to@ == b,
        decreases edges@.len() - i,
    {
        let e = &edges[i];
        let mut j: usize = 0;
        while j < e.from.len()
            invariant
                i < edges@.len(),
                *e == edges@[i as int],
                j <= e.from@.len(),
                forall|a: Seq<char>, b: Seq<char>| has_arc(r@, a, b) <==>
                    (exists|x: int, y: int| 0 <= x < i && 0 <= y < edges@[x].from@.len()
                        && #[trigger] edges@[x].from@[y]@ == a && edges@[x].to@ == b)
                    || (exists|y: int| 0 <= y < j && #[trigger] e.from@[y]@ == a && e.to@ == b),
            decreases e.from@.len() - j,
        {
            let ghost pre = r@;
            r.push((e.from[j].clone(), e.to.clone()));
            proof {
                assert forall|a: Seq<char>, b: Seq<char>| has_arc(r@, a, b) <==>
                    (exists|x: int, y: int| 0 <= x < i && 0 <= y < edges@[x].from@.len()
                        && #[trigger] edges@[x].from@[y]@ == a && edges@[x].to@ == b)
                    || (exists|y: int| 0 <= y < j + 1 && #[trigger] e.from@[y]@ == a && e.to@ == b) by {
                    if has_arc(r@, a, b) {
                        let k = choose|k: int| 0 <= k < r@.len() && #[trigger] r@[k].0@ == a && r@[k].1@ == b;
                        if k < pre.len() {
                            assert(pre[k] == r@[k]);
                            assert(has_arc(pre, a, b));
                        } else {
                            assert(e.from@[j as int]@ == a);
                        }
                    }
                    if exists|y: int| 0 <= y < j + 1 && #[trigger] e.from@[y]@ == a && e.to@ == b {
                        let y = choose|y: int| 0 <= y < j + 1 && #[trigger] e.from@[y]@ == a && e.to@ == b;
                        if y == j {
                            assert(r@[pre.len() as int].0@ == a);
                        } else {
                            assert(has_arc(pre, a, b));
                            let k = choose|k: int| 0 <= k < pre.len() && #[trigger] pre[k].0@ == a && pre[k].1@ == b;
                            assert(r@[k] == pre[k]);
                        }
                    }
                    if exists|x: int, y: int| 0 <= x < i && 0 <= y < edges@[x].from@.len()
                        && #[trigger] edges@[x].from@[y]@ == a && edges@[x].to@ == b {
                        assert(has_arc(pre, a, b));
                        let k = choose|k: int| 0 <= k < pre.len() && #[trigger] pre[k].0@ == a && pre[k].1@ == b;
                        assert(r@[k] == pre[k]);
                    }
                }
            }
            j = j + 1;
        }
        proof {
            assert forall|a: Seq<char>, b: Seq<char>| has_arc(r@, a, b) <==>
                exists|x: int, y: int| 0 <= x < i + 1 && 0 <= y < edges@[x].from@.len()
                    && #[trigger] edges@[x].from@[y]@ == a && edges@[x].to@ == b by {
                if exists|y: int| 0 <= y < j && #[trigger] e.from@[y]@ == a && e.to@ == b {
                    let y = choose|y: int| 0 <= y < j && #[trigger] e.from@[y]@ == a && e.to@ == b;
                    assert(edges@[i as int].from@[y]@ == a);
                }
                if exists|x: int, y: int| 0 <= x < i + 1 && 0 <= y < edges@[x].from@.len()
                    && #[trigger] edges@[x].from@[y]@ == a && edges@[x].to@ == b {
                    let (x, y) = choose|x: int, y: int| 0 <= x < i + 1 && 0 <= y < edges@[x].from@.len()
                        && #[trigger] edges@[x].from@[y]@ == a && edges@[x].to@ == b;
                    if x == i {
                        assert(e.from@[y]@ == a);
                    }
                }
            }
        }
        i = i + 1;
    }
    r
}

/// The arcs turned around.
pub fn reversed_arcs(arcs: &Vec<(String, String)>) -> (r: Vec<(String, String)>)
    ensures forall|a: Seq<char>, b: Seq<char>| has_arc(r@, a, b) <==> has_arc(arcs@, b, a),
{
    let mut r: Vec<(String, String)> = Vec::new();
    let mut i: usize = 0;
    while i < arcs.len()
        invariant
            i <= arcs@.len(),
            r@.len() == i,
            forall|k: int| 0 <= k < i ==> (#[trigger] r@[k]).0@ == arcs@[k].1@ && r@[k].1@ == arcs@[k].0@,
        decreases arcs@.len() - i,
    {
        r.push((arcs[i].1.clone(), arcs[i].0.clone()));
        i = i + 1;
    }
    proof {
        assert forall|a: Seq<char>, b: Seq<char>| has_arc(r@, a, b) <==> has_arc(arcs@, b, a) by {
            if has_arc(r@, a, b) {
                let k = choose|k: int| 0 <= k < r@.len() && #[trigger] r@[k].0@ == a && r@[k].1@ == b;
                assert(arcs@[k].0@ == b);
            }
            if has_arc(arcs@, b, a) {
                let k = choose|k: int| 0 <= k < arcs@.len() && #[trigger] arcs@[k].0@ == b && arcs@[k].1@ == a;
                assert(r@[k].0@ == a);
            }
        }
    }
    r
}

proof fn lemma_walks_agree(edges: Seq<Edge>, arcs: Seq<(String, String)>, p: Seq<Seq<char>>)
    requires forall|a: Seq<char>, b: Seq<char>| has_arc(arcs, a, b) <==> has_edge(edges, a, b),
    ensures arc_walk(arcs, p) <==> is_walk(edges, p),
{
    if arc_walk(arcs, p) {
        assert forall|k: int| 0 <= k < p.len() - 1 implies has_edge(edges, #[trigger] p[k], p[k + 1]) by {
            assert(has_arc(arcs, p[k], p[k + 1]));
        }
    }
    if is_walk(edges, p) {
        assert forall|k: int| 0 <= k < p.len() - 1 implies has_arc(arcs, #[trigger] p[k], p[k + 1]) by {
            assert(has_edge(edges, p[k], p[k + 1]));
        }
    }
}

/// Everything reachable from `start`.
pub fn downstream_set(edges: &Vec<Edge>, start: &String) -> (r: Vec<String>)
    ensures forall|x: Seq<char>| has_id(r@, x) <==> reaches(edges@, start@, x),
{
    let arcs = arcs_of(edges);
    let r = arc_closure(&arcs, start);
    proof {
        assert forall|x: Seq<char>| has_id(r@, x) <==> reaches(edges@, start@, x) by {
            if has_id(r@, x) {
                let p = choose|p: Seq<Seq<char>>| #[trigger] arc_walk(arcs@, p) && p.len() >= 1 && p[0] == start@ && p[p.len() - 1] == x;
                lemma_walks_agree(edges@, arcs@, p);
            }
            if reaches(edges@, start@, x) {
                let p = choose|p: Seq<Seq<char>>| #[trigger] is_walk(edges@, p) && p.len() >= 1 && p[0] == start@ && p[p.len() - 1] == x;
                lemma_walks_agree(edges@, arcs@, p);
            }
        }
    }
    r
}

pub open spec fn rev_path(p: Seq<Seq<char>>) -> Seq<Seq<char>> {
    Seq::new(p.len(), |k: int| p[p.len() - 1 - k])
}

proof fn lemma_rev_walk(edges: Seq<Edge>, rarcs: Seq<(String, String)>, p: Seq<Seq<char>>)
    requires forall|a: Seq<char>, b: Seq<char>| has_arc(rarcs, a, b) <==> has_edge(edges, b, a),
    ensures
        is_walk(edges, p) ==> arc_walk(rarcs, rev_path(p)),
        arc_walk(rarcs, p) ==> is_walk(edges, rev_path(p)),
{
    let q = rev_path(p);
    if is_walk(edges, p) {
        assert forall|k: int| 0 <= k < q.len() - 1 implies has_arc(rarcs, #[trigger] q[k], q[k + 1]) by {
            let m = p.len() - 2 - k;
            assert(has_edge(edges, p[m], p[m + 1]));
            assert(q[k] == p[m + 1]);
            assert(q[k + 1] == p[m]);
        }
    }
    if arc_walk(rarcs, p) {
        assert forall|k: int| 0 <= k < q.len() - 1 implies has_edge(edges, #[trigger] q[k], q[k + 1]) by {
            let m = p.len() - 2 - k;
            assert(has_arc(rarcs, p[m], p[m + 1]));
            assert(q[k] == p[m + 1]);
            assert(q[k + 1] == p[m]);
        }
    }
}

/// Everything from which `target` is reachable.
pub fn upstream_set(edges: &Vec<Edge>, target: &String) -> (r: Vec<String>)
    ensures forall|x: Seq<char>| has_id(r@, x) <==> reaches(edges@, x, target@),
{
    let arcs = arcs_of(edges);
    let rarcs = reversed_arcs(&arcs);
    let r = arc_closure(&rarcs, target);
    proof {
        assert forall|a: Seq<char>, b: Seq<char>| has_arc(rarcs@, a, b) <==> has_edge(edges@, b, a) by {
            assert(has_arc(rarcs@, a, b) <==> has_arc(arcs@, b, a));
        }
        assert forall|x: Seq<char>| has_id(r@, x) <==> reaches(edges@, x, target@) by {
            if has_id(r@, x) {
                let p = choose|p: Seq<Seq<char>>| #[trigger] arc_walk(rarcs@, p) && p.len() >= 1 && p[0] == target@ && p[p.len() - 1] == x;
                lemma_rev_walk(edges@, rarcs@, p);
                let q = rev_path(p);
                assert(q[0] == x && q[q.len() - 1] == target@);
                assert(is_walk(edges@, q));
            }
            if reaches(edges@, x, target@) {
                let p = choose|p: Seq<Seq<char>>| #[trigger] is_walk(edges@, p) && p.len() >= 1 && p[0] == x && p[p.len() - 1] == target@;
                lemma_rev_walk(edges@, rarcs@, p);
                let q = rev_path(p);
                assert(q[0] == target@ && q[q.len() - 1] == x);
                assert(arc_walk(rarcs@, q));
            }
        }
    }
    r
}

} // verus!
