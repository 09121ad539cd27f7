//! Walking a tree in topological order of its causes (Kahn's algorithm).
use vstd::prelude::*;
use crate::link::types::Edge;
use crate::strutil::{
    filter_seq, has_id, lemma_filter_step, lemma_has_id_views, lemma_seq_lt_asym, lemma_seq_lt_irrefl, lemma_take_all, seq_lt,
    strictly_sorted, views,
};
use crate::tree::commands::{TreeWalkData, WalkNode};
use crate::strutil::owned;
use crate::tree::types::{NodeRef, Tree};

verus! {

/// The causes of the edges into `n`, edge after edge.
pub open spec fn srcs_into(edges: Seq<Edge>, n: Seq<char>) -> Seq<Seq<char>>
    decreases edges.len(),
{
    if edges.len() == 0 {
        Seq::empty()
    } else {
        srcs_into(edges.drop_last(), n) + if edges.last().to@ == n { views(edges.last().from@) } else { Seq::empty() }
    }
}

/// The number of causes over all edges.
pub open spec fn total_causes(edges: Seq<Edge>) -> nat
    decreases edges.len(),
{
    if edges.len() == 0 { 0 } else { total_causes(edges.drop_last()) + edges.last().from@.len() }
}

/// Not among `done`.
pub open spec fn outside(done: Seq<Seq<char>>) -> spec_fn(Seq<char>) -> bool {
    |f: Seq<char>| !done.contains(f)
}

/// Equal to `x`.
pub open spec fn equal_to(x: Seq<char>) -> spec_fn(Seq<char>) -> bool {
    |f: Seq<char>| f == x
}

/// How many elements of `s` are not among `done`.
pub open spec fn unresolved(s: Seq<Seq<char>>, done: Seq<Seq<char>>) -> nat {
    filter_seq(s, outside(done)).len()
}

/// How many times `x` occurs in `s`.
pub open spec fn occurrences(s: Seq<Seq<char>>, x: Seq<char>) -> nat {
    filter_seq(s, equal_to(x)).len()
}

proof fn lemma_filter_concat(a: Seq<Seq<char>>, b: Seq<Seq<char>>, p: spec_fn(Seq<char>) -> bool)
    ensures filter_seq(a + b, p) == filter_seq(a, p) + filter_seq(b, p),
    decreases b.len(),
{
    if b.len() == 0 {
        assert(a + b =~= a);
        assert(filter_seq(a, p) + filter_seq(b, p) =~= filter_seq(a, p));
    } else {
        lemma_filter_concat(a, b.drop_last(), p);
        assert((a + b).drop_last() =~= a + b.drop_last());
        assert((a + b).last() == b.last());
        if p(b.last()) {
            assert(filter_seq(a, p) + filter_seq(b, p) =~= (filter_seq(a, p) + filter_seq(b.drop_last(), p)).push(b.last()));
        } else {
            assert(filter_seq(a, p) + filter_seq(b, p) =~= filter_seq(a, p) + filter_seq(b.drop_last(), p));
        }
    }
}

proof fn lemma_push_contains(done: Seq<Seq<char>>, x: Seq<char>, f: Seq<char>)
    ensures done.push(x).contains(f) <==> (done.contains(f) || f == x),
{
    let d2 = done.push(x);
    if d2.contains(f) {
        let k = choose|k: int| 0 <= k < d2.len() && d2[k] == f;
        if k < done.len() { assert(done[k] == f); }
    }
    if done.contains(f) {
        let k = choose|k: int| 0 <= k < done.len() && done[k] == f;
        assert(d2[k] == f);
    }
    if f == x { assert(d2[done.len() as int] == f); }
}

/// Resolving `x` resolves exactly its occurrences.
proof fn lemma_resolve_one(s: Seq<Seq<char>>, done: Seq<Seq<char>>, x: Seq<char>)
    requires !done.contains(x),
    ensures unresolved(s, done) == unresolved(s, done.push(x)) + occurrences(s, x),
    decreases s.len(),
{
    if s.len() > 0 {
        lemma_resolve_one(s.drop_last(), done, x);
        lemma_push_contains(done, x, s.last());
    }
}

/// Resolving more leaves no more unresolved.
proof fn lemma_resolve_mono(s: Seq<Seq<char>>, done: Seq<Seq<char>>, x: Seq<char>)
    ensures unresolved(s, done.push(x)) <= unresolved(s, done),
    decreases s.len(),
{
    if s.len() > 0 {
        lemma_resolve_mono(s.drop_last(), done, x);
        lemma_push_contains(done, x, s.last());
    }
}

/// Nothing unresolved means everything is among `done`.
proof fn lemma_all_resolved(s: Seq<Seq<char>>, done: Seq<Seq<char>>)
    ensures unresolved(s, done) == 0 <==> forall|i: int| 0 <= i < s.len() ==> done.contains(#[trigger] s[i]),
    decreases s.len(),
{
    if s.len() > 0 {
        lemma_all_resolved(s.drop_last(), done);
        crate::strutil::lemma_filter_len(s.drop_last(), outside(done));
        if unresolved(s, done) == 0 {
            assert forall|i: int| 0 <= i < s.len() implies done.contains(#[trigger] s[i]) by {
                if i < s.len() - 1 { assert(s[i] == s.drop_last()[i]); }
            }
        }
        if forall|i: int| 0 <= i < s.len() ==> done.contains(#[trigger] s[i]) {
            assert forall|i: int| 0 <= i < s.drop_last().len() implies done.contains(#[trigger] s.drop_last()[i]) by {
                assert(s.drop_last()[i] == s[i]);
            }
            assert(done.contains(s[s.len() - 1]));
        }
    }
}

/// The occurrences of `x` are among the unresolved when `x` is.
proof fn lemma_occurrences_le(s: Seq<Seq<char>>, done: Seq<Seq<char>>, x: Seq<char>)
    requires !done.contains(x),
    ensures occurrences(s, x) <= unresolved(s, done),
    decreases s.len(),
{
    if s.len() > 0 {
        lemma_occurrences_le(s.drop_last(), done, x);
    }
}

/// The causes into `n` over a concatenation of edge lists.
proof fn lemma_srcs_concat(a: Seq<Edge>, b: Seq<Edge>, n: Seq<char>)
    ensures srcs_into(a + b, n) == srcs_into(a, n) + srcs_into(b, n),
    decreases b.len(),
{
    if b.len() == 0 {
        assert(a + b =~= a);
        assert(srcs_into(a, n) + srcs_into(b, n) =~= srcs_into(a, n));
    } else {
        lemma_srcs_concat(a, b.drop_last(), n);
        assert((a + b).drop_last() =~= a + b.drop_last());
        assert((a + b).last() == b.last());
        let tail = if b.last().to@ == n { views(b.last().from@) } else { Seq::<Seq<char>>::empty() };
        assert(srcs_into(a, n) + srcs_into(b, n) =~= srcs_into(a, n) + srcs_into(b.drop_last(), n) + tail);
    }
}

/// The causes into one node are no more than all causes.
proof fn lemma_srcs_bounded(edges: Seq<Edge>, n: Seq<char>)
    ensures srcs_into(edges, n).len() <= total_causes(edges),
    decreases edges.len(),
{
    if edges.len() > 0 {
        lemma_srcs_bounded(edges.drop_last(), n);
        assert(views(edges.last().from@).len() == edges.last().from@.len());
    }
}

/// How many causes of the tree's edges into `n` are not yet among `done`.
#[verifier::opaque]
pub open spec fn pending(edges: Seq<Edge>, n: Seq<char>, done: Seq<Seq<char>>) -> nat {
    unresolved(srcs_into(edges, n), done)
}

/// The causes into `n` met after the first `a` edges and `k` causes of edge `a`.
pub open spec fn processed(edges: Seq<Edge>, a: int, k: int, n: Seq<char>) -> Seq<Seq<char>> {
    srcs_into(edges.take(a), n) + if edges[a].to@ == n { views(edges[a].from@).take(k) } else { Seq::empty() }
}

proof fn lemma_unresolved_none(s: Seq<Seq<char>>)
    ensures unresolved(s, Seq::empty()) == s.len(),
    decreases s.len(),
{
    if s.len() > 0 {
        lemma_unresolved_none(s.drop_last());
    }
}

proof fn lemma_total_prefix(edges: Seq<Edge>, a: int)
    requires 0 <= a <= edges.len(),
    ensures total_causes(edges.take(a)) <= total_causes(edges),
    decreases edges.len() - a,
{
    if a < edges.len() {
        lemma_total_prefix(edges, a + 1);
        let t = edges.take(a + 1);
        assert(t.drop_last() =~= edges.take(a));
    } else {
        assert(edges.take(a) =~= edges);
    }
}

proof fn lemma_take_step(edges: Seq<Edge>, a: int, n: Seq<char>)
    requires 0 <= a < edges.len(),
    ensures processed(edges, a, edges[a].from@.len() as int, n) == srcs_into(edges.take(a + 1), n),
{
    let t = edges.take(a + 1);
    assert(t.drop_last() =~= edges.take(a));
    assert(t.last() == edges[a]);
    assert(views(edges[a].from@).take(edges[a].from@.len() as int) =~= views(edges[a].from@));
}

proof fn lemma_occurrences_push(p: Seq<Seq<char>>, f: Seq<char>, x: Seq<char>)
    ensures occurrences(p.push(f), x) == occurrences(p, x) + if f == x { 1nat } else { 0nat },
{
    assert(p.push(f).drop_last() =~= p);
    assert(p.push(f).last() == f);
}

/// What has been met is a prefix of all the causes into `n`.
proof fn lemma_processed_prefix(edges: Seq<Edge>, a: int, k: int, n: Seq<char>, x: Seq<char>)
    requires 0 <= a < edges.len(), 0 <= k <= edges[a].from@.len(),
    ensures occurrences(processed(edges, a, k, n), x) <= occurrences(srcs_into(edges, n), x),
{
    let e = edges[a];
    let part = if e.to@ == n { views(e.from@) } else { Seq::<Seq<char>>::empty() };
    let head = if e.to@ == n { views(e.from@).take(k) } else { Seq::<Seq<char>>::empty() };
    let mid = if e.to@ == n { views(e.from@).skip(k) } else { Seq::<Seq<char>>::empty() };
    assert(part =~= head + mid);
    lemma_srcs_concat(edges.take(a + 1), edges.skip(a + 1), n);
    assert(edges.take(a + 1) + edges.skip(a + 1) =~= edges);
    let t = edges.take(a + 1);
    assert(t.drop_last() =~= edges.take(a));
    assert(t.last() == e);
    let rest = srcs_into(edges.skip(a + 1), n);
    assert(srcs_into(edges, n) =~= processed(edges, a, k, n) + (mid + rest));
    lemma_filter_concat(processed(edges, a, k, n), mid + rest, equal_to(x));
}

/// The position of `x` among `ids`, if it is there.
fn index_in(ids: &Vec<String>, x: &String) -> (r: Option<usize>)
    ensures
        match r {
            Some(j) => j < ids@.len() && ids@[j as int]@ == x@,
            None => !views(ids@).contains(x@),
        },
{
    let r = crate::strutil::position_of(ids, x);
    proof {
        if r is None { lemma_has_id_views(ids@, x@); }
    }
    r
}

/// The degree of each node: its causes over all edges.
fn initial_degrees(edges: &Vec<Edge>, ids: &Vec<String>) -> (deg: Vec<usize>)
    requires
        total_causes(edges@) <= usize::MAX,
        views(ids@).no_duplicates(),
    ensures
        deg@.len() == ids@.len(),
        forall|j: int| 0 <= j < ids@.len() ==> deg@[j] == pending(edges@, #[trigger] ids@[j]@, Seq::empty()),
{
    let mut deg: Vec<usize> = Vec::new();
    let mut j: usize = 0;
    while j < ids.len()
        invariant
            j <= ids@.len(),
            deg@.len() == j,
            forall|q: int| 0 <= q < j ==> deg@[q] == 0,
        decreases ids@.len() - j,
    {
        deg.push(0);
        j = j + 1;
    }
    let mut a: usize = 0;
    while a < edges.len()
        invariant
            a <= edges@.len(),
            total_causes(edges@) <= usize::MAX,
            views(ids@).no_duplicates(),
            deg@.len() == ids@.len(),
            forall|q: int| 0 <= q < ids@.len() ==> deg@[q] == srcs_into(edges@.take(a as int), #[trigger] ids@[q]@).len(),
        decreases edges@.len() - a,
    {
        let e = &edges[a];
        proof {
            let t = edges@.take(a + 1);
            assert(t.drop_last() =~= edges@.take(a as int));
            assert(t.last() == edges@[a as int]);
            lemma_total_prefix(edges@, a + 1);
        }
        let pos = index_in(ids, &e.to);
        let ghost before = deg@;
        match pos {
            Some(q) => {
                proof {
                    lemma_srcs_bounded(edges@.take(a + 1), ids@[q as int]@);
                    assert(views(e.from@).len() == e.from@.len());
                }
                let v = deg[q] + e.from.len();
                deg.set(q, v);
            },
            None => {},
        }
        proof {
            assert forall|q: int| 0 <= q < ids@.len() implies deg@[q] == srcs_into(edges@.take(a + 1), #[trigger] ids@[q]@).len() by {
                assert(views(e.from@).len() == e.from@.len());
                match pos {
                    Some(p) => {
                        if q != p {
                            assert(views(ids@)[q] != views(ids@)[p as int]);
                            assert(deg@[q] == before[q]);
                        }
                    },
                    None => {
                        assert(views(ids@)[q] == ids@[q]@);
                    },
                }
            }
        }
        a = a + 1;
    }
    proof {
        reveal(pending);
        lemma_take_all(edges@);
        assert forall|q: int| 0 <= q < ids@.len() implies deg@[q] == pending(edges@, #[trigger] ids@[q]@, Seq::empty()) by {
            lemma_unresolved_none(srcs_into(edges@, ids@[q]@));
        }
    }
    deg
}

/// The nodes ready once the causes in `done` and `x` are resolved.
pub open spec fn ready_after(edges: Seq<Edge>, ids: Seq<Seq<char>>, done: Seq<Seq<char>>, x: Seq<char>, n: Seq<char>) -> bool {
    ids.contains(n) && pending(edges, n, done) > 0 && pending(edges, n, done.push(x)) == 0
}

/// Resolves `x`: lowers the degree of each node by the times `x` causes it,
/// and returns the nodes whose degree reached zero, without repetitions.
fn relax(edges: &Vec<Edge>, ids: &Vec<String>, deg: &mut Vec<usize>, x: &String, Ghost(done): Ghost<Seq<Seq<char>>>)
    -> (ready: Vec<String>)
    requires
        views(ids@).no_duplicates(),
        old(deg)@.len() == ids@.len(),
        !done.contains(x@),
        forall|j: int| 0 <= j < ids@.len() ==> old(deg)@[j] == pending(edges@, #[trigger] ids@[j]@, done),
    ensures
        final(deg)@.len() == ids@.len(),
        forall|j: int| 0 <= j < ids@.len() ==> final(deg)@[j] == pending(edges@, #[trigger] ids@[j]@, done.push(x@)),
        views(ready@).no_duplicates(),
        forall|n: Seq<char>| views(ready@).contains(n) <==> ready_after(edges@, views(ids@), done, x@, n),
{
    let ghost E = edges@;
    let ghost xv = x@;
    let mut ready: Vec<String> = Vec::new();
    let mut a: usize = 0;
    while a < edges.len()
        invariant
            a <= E.len(),
            E == edges@,
            xv == x@,
            views(ids@).no_duplicates(),
            !done.contains(xv),
            deg@.len() == ids@.len(),
            forall|j: int| 0 <= j < ids@.len() ==> deg@[j] + occurrences(srcs_into(E.take(a as int), #[trigger] ids@[j]@), xv)
                == pending(E, ids@[j]@, done),
            views(ready@).no_duplicates(),
            forall|n: Seq<char>| #![trigger views(ready@).contains(n)] #![trigger pending(E, n, done)]
                views(ready@).contains(n) <==> (views(ids@).contains(n) && pending(E, n, done) > 0
                && occurrences(srcs_into(E.take(a as int), n), xv) == pending(E, n, done)),
        decreases E.len() - a,
    {
        let e = &edges[a];
        let pos = index_in(ids, &e.to);
        proof {
            assert forall|n: Seq<char>| processed(E, a as int, 0, n) == srcs_into(E.take(a as int), n) by {
                assert(views(e.from@).take(0) =~= Seq::<Seq<char>>::empty());
                assert(processed(E, a as int, 0, n) =~= srcs_into(E.take(a as int), n));
            }
        }
        let mut k: usize = 0;
        while k < e.from.len()
            invariant
                a < E.len(),
                E == edges@,
                *e == E[a as int],
                xv == x@,
                k <= e.from@.len(),
                views(ids@).no_duplicates(),
                !done.contains(xv),
                match pos {
                    Some(j) => j < ids@.len() && ids@[j as int]@ == e.to@,
                    None => !views(ids@).contains(e.to@),
                },
                deg@.len() == ids@.len(),
                forall|j: int| 0 <= j < ids@.len() ==> deg@[j] + occurrences(processed(E, a as int, k as int, #[trigger] ids@[j]@), xv)
                    == pending(E, ids@[j]@, done),
                views(ready@).no_duplicates(),
                forall|n: Seq<char>| #![trigger views(ready@).contains(n)] #![trigger pending(E, n, done)]
                    views(ready@).contains(n) <==> (views(ids@).contains(n) && pending(E, n, done) > 0
                    && occurrences(processed(E, a as int, k as int, n), xv) == pending(E, n, done)),
            decreases e.from@.len() - k,
        {
            let f = &e.from[k];
            let ghost before_deg = deg@;
            let ghost before_ready = ready@;
            proof {
                assert forall|n: Seq<char>| #[trigger] processed(E, a as int, k + 1, n)
                    == if e.to@ == n { processed(E, a as int, k as int, n).push(f@) } else { processed(E, a as int, k as int, n) } by {
                    assert(views(e.from@).take(k + 1) =~= views(e.from@).take(k as int).push(f@));
                    if e.to@ == n {
                        assert(processed(E, a as int, k + 1, n) =~= processed(E, a as int, k as int, n).push(f@));
                    }
                }
            }
            if *f == *x {
                match pos {
                    Some(j) => {
                        proof {
                            reveal(pending);
                            let n = ids@[j as int]@;
                            lemma_processed_prefix(E, a as int, k + 1, n, xv);
                            lemma_occurrences_le(srcs_into(E, n), done, xv);
                            lemma_occurrences_push(processed(E, a as int, k as int, n), f@, xv);
                        }
                        let v = deg[j] - 1;
                        deg.set(j, v);
                        if v == 0 {
                            ready.push(ids[j].clone());
                        }
                        proof {
                            let n0 = ids@[j as int]@;
                            assert forall|q: int| 0 <= q < ids@.len() implies deg@[q] + occurrences(processed(E, a as int, k + 1, #[trigger] ids@[q]@), xv)
                                == pending(E, ids@[q]@, done) by {
                                if q != j {
                                    assert(views(ids@)[q] != views(ids@)[j as int]);
                                }
                            }
                            assert forall|n: Seq<char>| #![trigger views(ready@).contains(n)] #![trigger pending(E, n, done)] views(ready@).contains(n) <==> (views(ids@).contains(n) && pending(E, n, done) > 0
                                && occurrences(processed(E, a as int, k + 1, n), xv) == pending(E, n, done)) by {
                                if n == n0 {
                                    lemma_occurrences_push(processed(E, a as int, k as int, n), f@, xv);
                                    assert(views(ids@)[j as int] == n0);
                                }
                                if v == 0 {
                                    assert(views(ready@) =~= views(before_ready).push(n0));
                                    lemma_push_contains(views(before_ready), n0, n);
                                }
                            }
                            if v == 0 {
                                assert(views(ready@) =~= views(before_ready).push(n0));
                                assert(!views(before_ready).contains(n0));
                            }
                        }
                    },
                    None => {
                        proof {
                            assert forall|q: int| 0 <= q < ids@.len() implies deg@[q] + occurrences(processed(E, a as int, k + 1, #[trigger] ids@[q]@), xv)
                                == pending(E, ids@[q]@, done) by {
                                assert(views(ids@)[q] == ids@[q]@);
                            }
                            assert forall|n: Seq<char>| #![trigger views(ready@).contains(n)] #![trigger pending(E, n, done)] views(ready@).contains(n) <==> (views(ids@).contains(n) && pending(E, n, done) > 0
                                && occurrences(processed(E, a as int, k + 1, n), xv) == pending(E, n, done)) by {
                                if views(ids@).contains(n) { assert(n != e.to@); }
                            }
                        }
                    },
                }
            } else {
                proof {
                    assert forall|n: Seq<char>| occurrences(processed(E, a as int, k + 1, n), xv) == occurrences(processed(E, a as int, k as int, n), xv) by {
                        lemma_occurrences_push(processed(E, a as int, k as int, n), f@, xv);
                    }
                    assert forall|n: Seq<char>| #![trigger views(ready@).contains(n)] #![trigger pending(E, n, done)] views(ready@).contains(n) <==> (views(ids@).contains(n) && pending(E, n, done) > 0
                        && occurrences(processed(E, a as int, k + 1, n), xv) == pending(E, n, done)) by {
                        lemma_occurrences_push(processed(E, a as int, k as int, n), f@, xv);
                        assert(occurrences(processed(E, a as int, k + 1, n), xv) == occurrences(processed(E, a as int, k as int, n), xv));
                        assert(pending(E, n, done) == pending(E, n, done));
                    }
                    assert forall|q: int| 0 <= q < ids@.len() implies deg@[q] + occurrences(processed(E, a as int, k + 1, #[trigger] ids@[q]@), xv)
                        == pending(E, ids@[q]@, done) by {
                        lemma_occurrences_push(processed(E, a as int, k as int, ids@[q]@), f@, xv);
                    }
                }
            }
            k = k + 1;
        }
        proof {
            assert forall|n: Seq<char>| processed(E, a as int, e.from@.len() as int, n) == srcs_into(E.take(a + 1), n) by {
                lemma_take_step(E, a as int, n);
            }
        }
        a = a + 1;
    }
    proof {
        reveal(pending);
        lemma_take_all(E);
        assert forall|n: Seq<char>| views(ready@).contains(n) <==> ready_after(E, views(ids@), done, xv, n) by {
            lemma_resolve_one(srcs_into(E, n), done, xv);
            assert(E.take(E.len() as int) == E);
            assert(pending(E, n, done) == pending(E, n, done));
        }
        assert forall|j: int| 0 <= j < ids@.len() implies deg@[j] == pending(E, #[trigger] ids@[j]@, done.push(xv)) by {
            lemma_resolve_one(srcs_into(E, ids@[j]@), done, xv);
        }
    }
    ready
}

/// The IDs attached to a tree, in order.
pub open spec fn attached_ids(t: Tree) -> Seq<Seq<char>> {
    t.nodes@.map_values(|n: NodeRef| n.node_ref@)
}

/// The order of a walk: every tree node once; a first part in which each
/// node comes after all the causes of the edges into it, and a rest in
/// which each node has a cause outside that first part.
pub open spec fn walk_order(ids: Seq<Seq<char>>, tree: Tree) -> bool {
    &&& ids.no_duplicates()
    &&& forall|x: Seq<char>| ids.contains(x) <==> attached_ids(tree).contains(x)
    &&& exists|k: int| #[trigger] kahn_split(ids, tree.edges@, k)
}

/// Some element of `srcs` is not among `done`.
pub open spec fn blocked(done: Seq<Seq<char>>, srcs: Seq<Seq<char>>) -> bool {
    exists|i: int| 0 <= i < srcs.len() && !done.contains(#[trigger] srcs[i])
}

/// `k` splits the walk into the nodes whose causes all come before them
/// and the nodes with a cause outside the first part.
pub open spec fn kahn_split(ids: Seq<Seq<char>>, edges: Seq<Edge>, k: int) -> bool {
    &&& 0 <= k <= ids.len()
    &&& forall|p: int, i: int| 0 <= p < k && 0 <= i < srcs_into(edges, ids[p]).len()
            ==> ids.take(p).contains(#[trigger] srcs_into(edges, ids[p])[i])
    &&& forall|p: int| k <= p < ids.len() ==> #[trigger] blocked(ids.take(k), srcs_into(edges, ids[p]))
}

/// In strictly ascending order.
pub open spec fn ascending(s: Seq<Seq<char>>) -> bool {
    forall|i: int, j: int| 0 <= i < j < s.len() ==> seq_lt(#[trigger] s[i], #[trigger] s[j])
}

proof fn lemma_ascending_views(v: Seq<String>)
    requires strictly_sorted(v),
    ensures ascending(views(v)),
{
    assert forall|i: int, j: int| 0 <= i < j < views(v).len() implies seq_lt(#[trigger] views(v)[i], #[trigger] views(v)[j]) by {
        assert(views(v)[i] == v[i]@ && views(v)[j] == v[j]@);
    }
}

/// Two ascending sequences with the same elements are equal.
proof fn lemma_ascending_unique(a: Seq<Seq<char>>, b: Seq<Seq<char>>)
    requires
        ascending(a),
        ascending(b),
        forall|x: Seq<char>| a.contains(x) <==> b.contains(x),
    ensures a == b,
    decreases a.len(),
{
    if a.len() == 0 {
        if b.len() > 0 {
            assert(b.contains(b[0]));
        }
        assert(a =~= b);
    } else {
        assert(a.contains(a[0]));
        let m = choose|m: int| 0 <= m < b.len() && b[m] == a[0];
        assert(b.contains(b[0]));
        let k = choose|k: int| 0 <= k < a.len() && a[k] == b[0];
        if m > 0 && k > 0 {
            assert(seq_lt(b[0], b[m]));
            assert(seq_lt(a[0], a[k]));
            lemma_seq_lt_asym(a[0], b[0]);
        } else if m > 0 {
            assert(seq_lt(b[0], b[m]));
            lemma_seq_lt_irrefl(a[0]);
        } else if k > 0 {
            assert(seq_lt(a[0], a[k]));
            lemma_seq_lt_irrefl(a[0]);
        }
        assert(a[0] == b[0]);
        let ta = a.drop_first();
        let tb = b.drop_first();
        assert forall|i: int, j: int| 0 <= i < j < ta.len() implies seq_lt(#[trigger] ta[i], #[trigger] ta[j]) by {
            assert(ta[i] == a[i + 1] && ta[j] == a[j + 1]);
        }
        assert forall|i: int, j: int| 0 <= i < j < tb.len() implies seq_lt(#[trigger] tb[i], #[trigger] tb[j]) by {
            assert(tb[i] == b[i + 1] && tb[j] == b[j + 1]);
        }
        assert forall|x: Seq<char>| ta.contains(x) <==> tb.contains(x) by {
            if ta.contains(x) {
                let i = choose|i: int| 0 <= i < ta.len() && ta[i] == x;
                assert(a[i + 1] == x);
                assert(seq_lt(a[0], a[i + 1]));
                lemma_seq_lt_irrefl(x);
                assert(b.contains(x));
                let j = choose|j: int| 0 <= j < b.len() && b[j] == x;
                assert(j != 0);
                assert(tb[j - 1] == x);
            }
            if tb.contains(x) {
                let i = choose|i: int| 0 <= i < tb.len() && tb[i] == x;
                assert(b[i + 1] == x);
                assert(seq_lt(b[0], b[i + 1]));
                lemma_seq_lt_irrefl(x);
                assert(a.contains(x));
                let j = choose|j: int| 0 <= j < a.len() && a[j] == x;
                assert(j != 0);
                assert(ta[j - 1] == x);
            }
        }
        lemma_ascending_unique(ta, tb);
        assert(a =~= seq![a[0]] + ta);
        assert(b =~= seq![b[0]] + tb);
    }
}

/// The nodes made ready by resolving `x` after `done`, ascending.
pub open spec fn ready_sorted(edges: Seq<Edge>, ids: Seq<Seq<char>>, done: Seq<Seq<char>>, x: Seq<char>) -> Seq<Seq<char>> {
    choose|s: Seq<Seq<char>>| ascending(s) && forall|n: Seq<char>| s.contains(n) <==> ready_after(edges, ids, done, x, n)
}

/// The nodes of `ids` without causes, ascending.
pub open spec fn initially_ready(edges: Seq<Edge>, ids: Seq<Seq<char>>) -> Seq<Seq<char>> {
    choose|s: Seq<Seq<char>>| ascending(s)
        && forall|n: Seq<char>| s.contains(n) <==> (ids.contains(n) && pending(edges, n, Seq::empty()) == 0)
}

proof fn lemma_ready_sorted_is(edges: Seq<Edge>, ids: Seq<Seq<char>>, done: Seq<Seq<char>>, x: Seq<char>, s: Seq<Seq<char>>)
    requires
        ascending(s),
        forall|n: Seq<char>| s.contains(n) <==> ready_after(edges, ids, done, x, n),
    ensures ready_sorted(edges, ids, done, x) == s,
{
    let c = ready_sorted(edges, ids, done, x);
    assert(ascending(c) && forall|n: Seq<char>| c.contains(n) <==> ready_after(edges, ids, done, x, n));
    lemma_ascending_unique(c, s);
}

proof fn lemma_initially_ready_is(edges: Seq<Edge>, ids: Seq<Seq<char>>, s: Seq<Seq<char>>)
    requires
        ascending(s),
        forall|n: Seq<char>| s.contains(n) <==> (ids.contains(n) && pending(edges, n, Seq::empty()) == 0),
    ensures initially_ready(edges, ids) == s,
{
    let c = initially_ready(edges, ids);
    assert(ascending(c) && forall|n: Seq<char>| c.contains(n) <==> (ids.contains(n) && pending(edges, n, Seq::empty()) == 0));
    lemma_ascending_unique(c, s);
}

/// Kahn's queue from position `h` on (for at most `fuel` more pops): each
/// pop appends, ascending, the nodes it made ready.
pub open spec fn kahn_from(edges: Seq<Edge>, ids: Seq<Seq<char>>, q: Seq<Seq<char>>, h: int, fuel: nat) -> Seq<Seq<char>>
    decreases fuel,
{
    if fuel == 0 || h < 0 || h >= q.len() {
        q
    } else {
        kahn_from(edges, ids, q + ready_sorted(edges, ids, q.take(h), q[h]), h + 1, (fuel - 1) as nat)
    }
}

/// Kahn's queue over the nodes `ids`: the nodes without causes first,
/// then, pop after pop, the nodes each pop made ready, ascending. A node
/// is queued at most once, so `ids.len()` pops always complete it.
pub open spec fn kahn_queue(edges: Seq<Edge>, ids: Seq<Seq<char>>) -> Seq<Seq<char>> {
    kahn_from(edges, ids, initially_ready(edges, ids), 0, (ids.len() + 1) as nat)
}

/// The elements of `s` outside `q`, each at its first occurrence.
pub open spec fn fresh_in_order(s: Seq<Seq<char>>, q: Seq<Seq<char>>) -> Seq<Seq<char>>
    decreases s.len(),
{
    if s.len() == 0 {
        Seq::empty()
    } else {
        let p = fresh_in_order(s.drop_last(), q);
        if q.contains(s.last()) || p.contains(s.last()) { p } else { p.push(s.last()) }
    }
}

/// The walk of a tree: Kahn's queue over its nodes, then the nodes the
/// queue never reached, in order of attachment.
pub open spec fn kahn_walk(tree: Tree) -> Seq<Seq<char>> {
    let a = attached_ids(tree);
    let q = kahn_queue(tree.edges@, a);
    q + fresh_in_order(a, q)
}

fn distinct_ids(tree: &Tree) -> (r: Vec<String>)
    ensures
        views(r@).no_duplicates(),
        forall|x: Seq<char>| views(r@).contains(x) <==> attached_ids(*tree).contains(x),
{
    let mut r: Vec<String> = Vec::new();
    let mut i: usize = 0;
    while i < tree.nodes.len()
        invariant
            i <= tree.nodes@.len(),
            views(r@).no_duplicates(),
            forall|x: Seq<char>| views(r@).contains(x) <==> attached_ids(*tree).take(i as int).contains(x),
        decreases tree.nodes@.len() - i,
    {
        let id = &tree.nodes[i].node_ref;
        proof { lemma_has_id_views(r@, id@); }
        let ghost pre = views(r@);
        if !crate::strutil::contains_string(&r, id) {
            r.push(id.clone());
            proof { assert(views(r@) =~= pre.push(id@)); }
        }
        proof {
            let t = attached_ids(*tree).take(i + 1);
            assert(t =~= attached_ids(*tree).take(i as int).push(id@));
            assert forall|x: Seq<char>| views(r@).contains(x) <==> t.contains(x) by {
                lemma_push_contains(attached_ids(*tree).take(i as int), id@, x);
                lemma_push_contains(pre, id@, x);
            }
        }
        i = i + 1;
    }
    proof { lemma_take_all(attached_ids(*tree)); }
    r
}

/// The state of the queue after `h` pops: what the queue holds is in
/// `ids`, resolved by what was popped, without repetitions; every node of
/// `ids` so resolved is queued; every popped node was resolved by the
/// nodes popped before it.
#[verifier::opaque]
pub open spec fn queue_ok(E: Seq<Edge>, ids: Seq<Seq<char>>, qv: Seq<Seq<char>>, h: int) -> bool {
    &&& 0 <= h <= qv.len()
    &&& qv.len() <= ids.len()
    &&& qv.no_duplicates()
    &&& forall|p: int| 0 <= p < qv.len() ==> ids.contains(#[trigger] qv[p]) && pending(E, qv[p], qv.take(h)) == 0
    &&& forall|n: Seq<char>| ids.contains(n) && pending(E, n, qv.take(h)) == 0 ==> qv.contains(n)
    &&& forall|p: int| 0 <= p < h ==> pending(E, #[trigger] qv[p], qv.take(p)) == 0
}

/// What a valid queue state gives the loop that drains it.
proof fn lemma_queue_facts(E: Seq<Edge>, ids: Seq<Seq<char>>, qv: Seq<Seq<char>>, h: int)
    requires queue_ok(E, ids, qv, h),
    ensures
        0 <= h <= qv.len() <= ids.len(),
        qv.no_duplicates(),
        h < qv.len() ==> !qv.take(h).contains(qv[h]),
{
    reveal(queue_ok);
    if h < qv.len() && qv.take(h).contains(qv[h]) {
        let w = choose|w: int| 0 <= w < h && qv.take(h)[w] == qv[h];
        assert(qv[w] == qv[h]);
    }
}

proof fn lemma_new_not_queued(E: Seq<Edge>, ids: Seq<Seq<char>>, qv: Seq<Seq<char>>, h: int, nrv: Seq<Seq<char>>)
    requires
        queue_ok(E, ids, qv, h),
        h < qv.len(),
        forall|n: Seq<char>| nrv.contains(n) <==> ready_after(E, ids, qv.take(h), qv[h], n),
    ensures
        forall|n: Seq<char>| nrv.contains(n) ==> !qv.contains(n),
{
    reveal(queue_ok);
    let done = qv.take(h);
    assert forall|n: Seq<char>| nrv.contains(n) implies !qv.contains(n) by {
        if qv.contains(n) {
            let w = choose|w: int| 0 <= w < qv.len() && qv[w] == n;
            assert(pending(E, qv[w], done) == 0);
        }
    }
}

proof fn lemma_concat_distinct(qv: Seq<Seq<char>>, nrv: Seq<Seq<char>>)
    requires
        qv.no_duplicates(),
        nrv.no_duplicates(),
        forall|n: Seq<char>| nrv.contains(n) ==> !qv.contains(n),
    ensures (qv + nrv).no_duplicates(),
{
    let qv2 = qv + nrv;
    assert forall|a: int, b: int| 0 <= a < qv2.len() && 0 <= b < qv2.len() && a != b implies qv2[a] != qv2[b] by {
        if a >= qv.len() && b < qv.len() { assert(nrv.contains(qv2[a])); }
        if b >= qv.len() && a < qv.len() { assert(nrv.contains(qv2[b])); }
        if a >= qv.len() && b >= qv.len() { assert(qv2[a] == nrv[a - qv.len()]); assert(qv2[b] == nrv[b - qv.len()]); }
    }
}

proof fn lemma_step_members(E: Seq<Edge>, ids: Seq<Seq<char>>, qv: Seq<Seq<char>>, h: int, nrv: Seq<Seq<char>>)
    requires
        queue_ok(E, ids, qv, h),
        h < qv.len(),
        forall|n: Seq<char>| nrv.contains(n) <==> ready_after(E, ids, qv.take(h), qv[h], n),
    ensures
        forall|p: int| 0 <= p < (qv + nrv).len() ==> ids.contains(#[trigger] (qv + nrv)[p])
            && pending(E, (qv + nrv)[p], (qv + nrv).take(h + 1)) == 0,
{
    reveal(queue_ok);
    let done = qv.take(h);
    let x = qv[h];
    let qv2 = qv + nrv;
    assert(qv2.take(h + 1) =~= done.push(x));
    assert forall|p: int| 0 <= p < qv2.len() implies ids.contains(#[trigger] qv2[p])
        && pending(E, qv2[p], qv2.take(h + 1)) == 0 by {
        if p < qv.len() {
            reveal(pending);
            lemma_resolve_mono(srcs_into(E, qv[p]), done, x);
        } else {
            assert(qv2[p] == nrv[p - qv.len()]);
            assert(nrv.contains(qv2[p]));
        }
    }
}

proof fn lemma_step_complete(E: Seq<Edge>, ids: Seq<Seq<char>>, qv: Seq<Seq<char>>, h: int, nrv: Seq<Seq<char>>)
    requires
        queue_ok(E, ids, qv, h),
        h < qv.len(),
        forall|n: Seq<char>| nrv.contains(n) <==> ready_after(E, ids, qv.take(h), qv[h], n),
    ensures
        forall|n: Seq<char>| ids.contains(n) && pending(E, n, (qv + nrv).take(h + 1)) == 0 ==> (qv + nrv).contains(n),
{
    reveal(queue_ok);
    let done = qv.take(h);
    let x = qv[h];
    let qv2 = qv + nrv;
    assert(qv2.take(h + 1) =~= done.push(x));
    assert forall|n: Seq<char>| ids.contains(n) && pending(E, n, qv2.take(h + 1)) == 0 implies qv2.contains(n) by {
        if pending(E, n, done) == 0 {
            let w = choose|w: int| 0 <= w < qv.len() && qv[w] == n;
            assert(qv2[w] == n);
        } else {
            assert(nrv.contains(n));
            let w = choose|w: int| 0 <= w < nrv.len() && nrv[w] == n;
            assert(qv2[qv.len() + w] == n);
        }
    }
}

proof fn lemma_extend_prefix(qv: Seq<Seq<char>>, nrv: Seq<Seq<char>>, p: int)
    requires 0 <= p < qv.len(),
    ensures
        (qv + nrv)[p] == qv[p],
        (qv + nrv).take(p) == qv.take(p),
{
    assert((qv + nrv).take(p) =~= qv.take(p));
}

proof fn lemma_step_prefix(E: Seq<Edge>, qv: Seq<Seq<char>>, h: int, nrv: Seq<Seq<char>>)
    requires
        0 <= h < qv.len(),
        forall|p: int| 0 <= p < h ==> pending(E, #[trigger] qv[p], qv.take(p)) == 0,
        pending(E, qv[h], qv.take(h)) == 0,
    ensures
        forall|p: int| 0 <= p < h + 1 ==> pending(E, #[trigger] (qv + nrv)[p], (qv + nrv).take(p)) == 0,
{
    assert forall|p: int| 0 <= p < h + 1 implies pending(E, #[trigger] (qv + nrv)[p], (qv + nrv).take(p)) == 0 by {
        lemma_extend_prefix(qv, nrv, p);
        if p < h {
            assert(pending(E, qv[p], qv.take(p)) == 0);
        }
    }
}

/// One pop: the queue extended by the nodes the popped node made ready is
/// again a valid queue state, one pop further.
proof fn lemma_queue_step(E: Seq<Edge>, ids: Seq<Seq<char>>, qv: Seq<Seq<char>>, h: int, nrv: Seq<Seq<char>>)
    requires
        ids.no_duplicates(),
        queue_ok(E, ids, qv, h),
        h < qv.len(),
        nrv.no_duplicates(),
        forall|n: Seq<char>| nrv.contains(n) <==> ready_after(E, ids, qv.take(h), qv[h], n),
    ensures
        queue_ok(E, ids, qv + nrv, h + 1),
{
    lemma_new_not_queued(E, ids, qv, h, nrv);
    lemma_step_members(E, ids, qv, h, nrv);
    lemma_step_complete(E, ids, qv, h, nrv);
    reveal(queue_ok);
    lemma_step_prefix(E, qv, h, nrv);
    lemma_concat_distinct(qv, nrv);
    let qv2 = qv + nrv;
    assert forall|x: Seq<char>| qv2.contains(x) implies ids.contains(x) by {
        let w = choose|w: int| 0 <= w < qv2.len() && qv2[w] == x;
        assert(ids.contains(qv2[w]));
    }
    crate::trace::lemma_pigeon(qv2, ids);
}

/// The nodes of `ids` without pending causes, ascending.
fn initial_queue(E: &Vec<Edge>, ids: &Vec<String>, deg: &Vec<usize>) -> (q: Vec<String>)
    requires
        views(ids@).no_duplicates(),
        deg@.len() == ids@.len(),
        forall|i: int| 0 <= i < ids@.len() ==> deg@[i] == pending(E@, #[trigger] ids@[i]@, Seq::empty()),
    ensures
        queue_ok(E@, views(ids@), views(q@), 0),
        ascending(views(q@)),
        forall|n: Seq<char>| views(q@).contains(n) <==> (views(ids@).contains(n) && pending(E@, n, Seq::empty()) == 0),
{
    let mut zeros: Vec<String> = Vec::new();
    let mut j: usize = 0;
    while j < ids.len()
        invariant
            j <= ids@.len(),
            deg@.len() == ids@.len(),
            forall|x: Seq<char>| has_id(zeros@, x) <==> exists|q: int| 0 <= q < j && ids@[q]@ == x && #[trigger] deg@[q] == 0,
        decreases ids@.len() - j,
    {
        let ghost pre = zeros@;
        if deg[j] == 0 {
            zeros.push(ids[j].clone());
        }
        proof {
            assert forall|x: Seq<char>| has_id(zeros@, x) <==> exists|q: int| 0 <= q < j + 1 && ids@[q]@ == x && #[trigger] deg@[q] == 0 by {
                if has_id(zeros@, x) {
                    let k = choose|k: int| 0 <= k < zeros@.len() && #[trigger] zeros@[k]@ == x;
                    if k < pre.len() { assert(pre[k] == zeros@[k]); assert(has_id(pre, x)); }
                }
                if has_id(pre, x) {
                    let k = choose|k: int| 0 <= k < pre.len() && #[trigger] pre[k]@ == x;
                    assert(zeros@[k] == pre[k]);
                }
                if deg@[j as int] == 0 { assert(zeros@[pre.len() as int] == ids@[j as int]); }
            }
        }
        j = j + 1;
    }
    let q = sorted_unique_of(&zeros);
    proof {
        reveal(queue_ok);
        let qv = views(q@);
        assert(qv.take(0) =~= Seq::<Seq<char>>::empty());
        assert forall|n: Seq<char>| views(ids@).contains(n) && pending(E@, n, qv.take(0)) == 0 implies qv.contains(n) by {
            let w = choose|w: int| 0 <= w < views(ids@).len() && views(ids@)[w] == n;
            assert(deg@[w] == 0);
            assert(has_id(zeros@, n));
            lemma_has_id_views(q@, n);
        }
        assert forall|p: int| 0 <= p < qv.len() implies views(ids@).contains(#[trigger] qv[p])
            && pending(E@, qv[p], qv.take(0)) == 0 by {
            assert(has_id(q@, q@[p]@));
            assert(has_id(zeros@, q@[p]@));
            let w = choose|w: int| 0 <= w < j && ids@[w]@ == q@[p]@ && #[trigger] deg@[w] == 0;
            assert(views(ids@)[w] == q@[p]@);
        }
        crate::trace::lemma_pigeon(qv, views(ids@));
        lemma_ascending_views(q@);
        assert forall|n: Seq<char>| qv.contains(n) <==> (views(ids@).contains(n) && pending(E@, n, Seq::empty()) == 0) by {
            if qv.contains(n) {
                let p = choose|p: int| 0 <= p < qv.len() && qv[p] == n;
                assert(views(ids@).contains(qv[p]) && pending(E@, qv[p], qv.take(0)) == 0);
            }
        }
    }
    q
}

/// Runs the queue to its end.
fn drain_queue(E: &Vec<Edge>, ids: &Vec<String>, deg: &mut Vec<usize>, q: Vec<String>, Ghost(A): Ghost<Seq<Seq<char>>>)
    -> (r: Vec<String>)
    requires
        views(ids@).no_duplicates(),
        old(deg)@.len() == ids@.len(),
        queue_ok(E@, views(ids@), views(q@), 0),
        forall|i: int| 0 <= i < ids@.len() ==> old(deg)@[i] == pending(E@, #[trigger] ids@[i]@, Seq::empty()),
        forall|n: Seq<char>| views(ids@).contains(n) <==> A.contains(n),
        ids@.len() <= A.len(),
        views(q@) == initially_ready(E@, A),
    ensures
        queue_ok(E@, views(ids@), views(r@), r@.len() as int),
        views(r@) == kahn_queue(E@, A),
{
    let mut q = q;
    proof {
        assert(views(q@).take(0) =~= Seq::<Seq<char>>::empty());
        lemma_queue_facts(E@, views(ids@), views(q@), 0);
    }
    let mut h: usize = 0;
    while h < q.len()
        invariant
            views(ids@).no_duplicates(),
            deg@.len() == ids@.len(),
            queue_ok(E@, views(ids@), views(q@), h as int),
            h <= q@.len() <= ids@.len(),
            forall|i: int| 0 <= i < ids@.len() ==> deg@[i] == pending(E@, #[trigger] ids@[i]@, views(q@).take(h as int)),
            forall|n: Seq<char>| views(ids@).contains(n) <==> A.contains(n),
            ids@.len() <= A.len(),
            kahn_from(E@, A, views(q@), h as int, (A.len() + 1 - h) as nat) == kahn_queue(E@, A),
        decreases 2 * ids@.len() - h - q@.len(),
    {
        let x = q[h].clone();
        let ghost qv = views(q@);
        let ghost done = qv.take(h as int);
        proof {
            assert(x@ == qv[h as int]);
            lemma_queue_facts(E@, views(ids@), qv, h as int);
        }
        let ready = relax(E, ids, deg, &x, Ghost(done));
        let nr = sorted_unique_of(&ready);
        let ghost nrv = views(nr@);
        crate::strutil::push_all(&mut q, &nr);
        proof {
            assert(views(q@) =~= qv + nrv);
            assert(qv.take(h + 1) =~= done.push(x@));
            lemma_queue_step(E@, views(ids@), qv, h as int, nrv);
            assert(views(q@).take(h + 1) =~= done.push(x@));
            lemma_queue_facts(E@, views(ids@), views(q@), h + 1);
            assert forall|n: Seq<char>| nrv.contains(n) <==> ready_after(E@, A, done, x@, n) by {
                assert(views(ids@).contains(n) <==> A.contains(n));
            }
            lemma_ascending_views(nr@);
            lemma_ready_sorted_is(E@, A, done, x@, nrv);
            let f: nat = (A.len() + 1 - h) as nat;
            assert(kahn_from(E@, A, qv, h as int, f)
                == kahn_from(E@, A, qv + ready_sorted(E@, A, qv.take(h as int), qv[h as int]), h + 1, (f - 1) as nat));
        }
        h = h + 1;
    }
    q
}

/// The attached nodes the queue does not hold, in order of attachment,
/// each once.
fn left_out(tree: &Tree, q: &Vec<String>) -> (rest: Vec<String>)
    ensures
        (views(q@) + views(rest@)).no_duplicates() || !views(q@).no_duplicates(),
        views(rest@).no_duplicates(),
        forall|x: Seq<char>| views(rest@).contains(x) ==> !views(q@).contains(x),
        forall|x: Seq<char>| (views(q@).contains(x) || views(rest@).contains(x)) <==> (views(q@).contains(x) || attached_ids(*tree).contains(x)),
        forall|p: int| 0 <= p < rest@.len() ==> attached_ids(*tree).contains(#[trigger] views(rest@)[p]),
        views(rest@) == fresh_in_order(attached_ids(*tree), views(q@)),
{
    let mut rest: Vec<String> = Vec::new();
    let mut i: usize = 0;
    while i < tree.nodes.len()
        invariant
            i <= tree.nodes@.len(),
            views(rest@).no_duplicates(),
            forall|x: Seq<char>| views(rest@).contains(x) ==> !views(q@).contains(x),
            forall|x: Seq<char>| (views(q@).contains(x) || views(rest@).contains(x))
                <==> (views(q@).contains(x) || attached_ids(*tree).take(i as int).contains(x)),
            forall|p: int| 0 <= p < rest@.len() ==> attached_ids(*tree).contains(#[trigger] views(rest@)[p]),
            views(rest@) == fresh_in_order(attached_ids(*tree).take(i as int), views(q@)),
        decreases tree.nodes@.len() - i,
    {
        let id = &tree.nodes[i].node_ref;
        proof {
            lemma_has_id_views(rest@, id@);
            lemma_has_id_views(q@, id@);
            let t = attached_ids(*tree).take(i + 1);
            assert(t.drop_last() =~= attached_ids(*tree).take(i as int));
            assert(t.last() == id@);
        }
        let ghost pre = views(rest@);
        if !crate::strutil::contains_string(q, id) && !crate::strutil::contains_string(&rest, id) {
            rest.push(id.clone());
            proof {
                assert(views(rest@) =~= pre.push(id@));
                assert(attached_ids(*tree)[i as int] == id@);
                assert forall|x: Seq<char>| views(rest@).contains(x) implies !views(q@).contains(x) by {
                    lemma_push_contains(pre, id@, x);
                }
            }
        }
        proof {
            let t = attached_ids(*tree).take(i + 1);
            assert(t =~= attached_ids(*tree).take(i as int).push(id@));
            assert forall|x: Seq<char>| (views(q@).contains(x) || views(rest@).contains(x)) <==> (views(q@).contains(x) || t.contains(x)) by {
                lemma_push_contains(attached_ids(*tree).take(i as int), id@, x);
                lemma_push_contains(pre, id@, x);
            }
        }
        i = i + 1;
    }
    proof {
        lemma_take_all(attached_ids(*tree));
        let a = views(q@);
        let b = views(rest@);
        if a.no_duplicates() {
            assert forall|x: int, y: int| 0 <= x < (a + b).len() && 0 <= y < (a + b).len() && x != y implies (a + b)[x] != (a + b)[y] by {
                if x < a.len() && y >= a.len() { assert(b.contains((a + b)[y])); }
                if y < a.len() && x >= a.len() { assert(b.contains((a + b)[x])); }
            }
        }
    }
    rest
}

/// The walk order follows from a drained queue and the nodes appended.
proof fn lemma_walk_order(tree: Tree, ids: Seq<Seq<char>>, qv: Seq<Seq<char>>, rv: Seq<Seq<char>>)
    requires
        forall|x: Seq<char>| ids.contains(x) <==> attached_ids(tree).contains(x),
        queue_ok(tree.edges@, ids, qv, qv.len() as int),
        qv.len() <= rv.len(),
        rv.take(qv.len() as int) == qv,
        rv.no_duplicates(),
        forall|x: Seq<char>| rv.contains(x) <==> (qv.contains(x) || attached_ids(tree).contains(x)),
        forall|p: int| qv.len() <= p < rv.len() ==> attached_ids(tree).contains(#[trigger] rv[p]) && !qv.contains(rv[p]),
    ensures walk_order(rv, tree),
{
    reveal(queue_ok);
    let E = tree.edges@;
    let k = qv.len() as int;
    assert forall|x: Seq<char>| rv.contains(x) <==> attached_ids(tree).contains(x) by {
        if qv.contains(x) {
            let w = choose|w: int| 0 <= w < qv.len() && qv[w] == x;
            assert(ids.contains(qv[w]));
        }
    }
    assert forall|p: int, i: int| 0 <= p < k && 0 <= i < srcs_into(E, rv[p]).len()
        implies rv.take(p).contains(#[trigger] srcs_into(E, rv[p])[i]) by {
        assert(rv[p] == rv.take(k)[p]);
        assert(rv.take(p) =~= qv.take(p));
        reveal(pending);
        lemma_all_resolved(srcs_into(E, qv[p]), qv.take(p));
    }
    assert forall|p: int| k <= p < rv.len() implies #[trigger] blocked(rv.take(k), srcs_into(E, rv[p])) by {
        assert(qv.take(k) =~= qv);
        assert(ids.contains(rv[p]));
        if pending(E, rv[p], qv) == 0 {
            assert(qv.contains(rv[p]));
        }
        reveal(pending);
        lemma_all_resolved(srcs_into(E, rv[p]), qv);
    }
    assert(kahn_split(rv, E, k));
}

/// The Kahn order of the tree's nodes followed by the nodes it cannot
/// reach, in order of attachment.
fn walk_ids(tree: &Tree) -> (r: Vec<String>)
    requires total_causes(tree.edges@) <= usize::MAX,
    ensures
        walk_order(views(r@), *tree),
        views(r@) == kahn_walk(*tree),
{
    let ghost A = attached_ids(*tree);
    let ids = distinct_ids(tree);
    let mut deg = initial_degrees(&tree.edges, &ids);
    let q = initial_queue(&tree.edges, &ids, &deg);
    proof {
        assert forall|x: Seq<char>| views(ids@).contains(x) implies A.contains(x) by {}
        crate::trace::lemma_pigeon(views(ids@), A);
        assert forall|n: Seq<char>| views(q@).contains(n) <==> (A.contains(n) && pending(tree.edges@, n, Seq::empty()) == 0) by {
            assert(views(ids@).contains(n) <==> A.contains(n));
        }
        lemma_initially_ready_is(tree.edges@, A, views(q@));
    }
    let q = drain_queue(&tree.edges, &ids, &mut deg, q, Ghost(A));
    proof { lemma_queue_facts(tree.edges@, views(ids@), views(q@), q@.len() as int); }
    let rest = left_out(tree, &q);
    let mut r = crate::strutil::clone_strings(&q);
    crate::strutil::push_all(&mut r, &rest);
    proof {
        let rv = views(r@);
        let qv = views(q@);
        assert(rv =~= qv + views(rest@));
        assert(rv.take(qv.len() as int) =~= qv);
        assert forall|x: Seq<char>| rv.contains(x) <==> (qv.contains(x) || views(rest@).contains(x)) by {
            if rv.contains(x) {
                let w = choose|w: int| 0 <= w < rv.len() && rv[w] == x;
                if w >= qv.len() { assert(views(rest@)[w - qv.len()] == x); }
            }
            if views(rest@).contains(x) {
                let w = choose|w: int| 0 <= w < views(rest@).len() && views(rest@)[w] == x;
                assert(rv[qv.len() + w] == x);
            }
        }
        assert forall|p: int| qv.len() <= p < rv.len() implies attached_ids(*tree).contains(#[trigger] rv[p]) && !qv.contains(rv[p]) by {
            assert(rv[p] == views(rest@)[p - qv.len()]);
            assert(views(rest@).contains(rv[p]));
        }
        lemma_walk_order(*tree, views(ids@), qv, rv);
    }
    r
}

/// The strings of `v` in strictly ascending order, without repetitions.
fn sorted_unique_of(v: &Vec<String>) -> (r: Vec<String>)
    ensures
        strictly_sorted(r@),
        views(r@).no_duplicates(),
        forall|x: Seq<char>| views(r@).contains(x) <==> views(v@).contains(x),
        forall|x: Seq<char>| has_id(r@, x) <==> has_id(v@, x),
{
    let r = crate::strutil::sorted_unique(v);
    proof {
        assert forall|a: int, b: int| 0 <= a < views(r@).len() && 0 <= b < views(r@).len() && a != b
            implies views(r@)[a] != views(r@)[b] by {
            if a < b {
                assert(crate::strutil::seq_lt(r@[a]@, r@[b]@));
                crate::strutil::lemma_seq_lt_irrefl(r@[a]@);
            } else {
                assert(crate::strutil::seq_lt(r@[b]@, r@[a]@));
                crate::strutil::lemma_seq_lt_irrefl(r@[b]@);
            }
        }
        assert forall|x: Seq<char>| views(r@).contains(x) <==> views(v@).contains(x) by {
            lemma_has_id_views(r@, x);
            lemma_has_id_views(v@, x);
        }
    }
    r
}

/// The role of the node's last attachment.
pub open spec fn last_role(nodes: Seq<NodeRef>, id: Seq<char>) -> Option<Seq<char>>
    decreases nodes.len(),
{
    if nodes.len() == 0 {
        None
    } else if nodes.last().node_ref@ == id {
        crate::link::types::opt_view(nodes.last().role)
    } else {
        last_role(nodes.drop_last(), id)
    }
}

/// The IDs of the edges into the node, in order.
pub open spec fn incoming_ids(edges: Seq<Edge>, id: Seq<char>) -> Seq<Seq<char>>
    decreases edges.len(),
{
    if edges.len() == 0 {
        Seq::empty()
    } else {
        incoming_ids(edges.drop_last(), id) + if edges.last().to@ == id { seq![edges.last().id@] } else { Seq::empty() }
    }
}

/// The IDs of the edges out of the node, in order, an edge once per time
/// the node is among its causes.
pub open spec fn outgoing_ids(edges: Seq<Edge>, id: Seq<char>) -> Seq<Seq<char>>
    decreases edges.len(),
{
    if edges.len() == 0 {
        Seq::empty()
    } else {
        outgoing_ids(edges.drop_last(), id)
            + Seq::new(occurrences(views(edges.last().from@), id), |k: int| edges.last().id@)
    }
}

/// A walk node describes the node `id` of the tree.
pub open spec fn walk_node_of(w: WalkNode, tree: Tree, id: Seq<char>) -> bool {
    &&& w.id@ == id
    &&& crate::link::types::opt_view(w.role) == last_role(tree.nodes@, id)
    &&& views(w.incoming_edges@) == incoming_ids(tree.edges@, id)
    &&& views(w.outgoing_edges@) == outgoing_ids(tree.edges@, id)
}

fn role_of(nodes: &Vec<NodeRef>, id: &String) -> (r: Option<String>)
    ensures crate::link::types::opt_view(r) == last_role(nodes@, id@),
{
    let mut i = nodes.len();
    assert(nodes@.take(i as int) =~= nodes@);
    while i > 0
        invariant
            i <= nodes@.len(),
            last_role(nodes@, id@) == last_role(nodes@.take(i as int), id@),
        decreases i,
    {
        proof {
            let t = nodes@.take(i as int);
            assert(t.drop_last() =~= nodes@.take(i - 1));
            assert(t.last() == nodes@[i - 1]);
        }
        if nodes[i - 1].node_ref == *id {
            return crate::strutil::clone_opt_string(&nodes[i - 1].role);
        }
        i = i - 1;
    }
    None
}

fn walk_node(tree: &Tree, id: &String) -> (w: WalkNode)
    ensures walk_node_of(w, *tree, id@),
{
    let edges = &tree.edges;
    let mut incoming: Vec<String> = Vec::new();
    let mut outgoing: Vec<String> = Vec::new();
    let mut a: usize = 0;
    while a < edges.len()
        invariant
            a <= edges@.len(),
            views(incoming@) == incoming_ids(edges@.take(a as int), id@),
            views(outgoing@) == outgoing_ids(edges@.take(a as int), id@),
        decreases edges@.len() - a,
    {
        let e = &edges[a];
        proof {
            let t = edges@.take(a + 1);
            assert(t.drop_last() =~= edges@.take(a as int));
            assert(t.last() == edges@[a as int]);
        }
        let ghost pin = views(incoming@);
        if e.to == *id {
            incoming.push(e.id.clone());
        }
        proof {
            assert(views(incoming@) =~= pin + if e.to@ == id@ { seq![e.id@] } else { Seq::<Seq<char>>::empty() });
        }
        let ghost base = views(outgoing@);
        let mut k: usize = 0;
        while k < e.from.len()
            invariant
                k <= e.from@.len(),
                views(outgoing@) == base + Seq::new(occurrences(views(e.from@).take(k as int), id@), |q: int| e.id@),
            decreases e.from@.len() - k,
        {
            let ghost pre = views(outgoing@);
            proof {
                let t = views(e.from@).take(k + 1);
                assert(t =~= views(e.from@).take(k as int).push(e.from@[k as int]@));
                lemma_occurrences_push(views(e.from@).take(k as int), e.from@[k as int]@, id@);
            }
            if e.from[k] == *id {
                outgoing.push(e.id.clone());
                proof {
                    let n = occurrences(views(e.from@).take(k as int), id@);
                    assert(Seq::new(n + 1, |q: int| e.id@) =~= Seq::new(n, |q: int| e.id@).push(e.id@));
                    assert(views(outgoing@) =~= pre.push(e.id@));
                }
            }
            k = k + 1;
        }
        proof {
            assert(views(e.from@).take(e.from@.len() as int) =~= views(e.from@));
        }
        a = a + 1;
    }
    proof { lemma_take_all(edges@); }
    WalkNode { id: id.clone(), role: role_of(&tree.nodes, id), incoming_edges: incoming, outgoing_edges: outgoing }
}

/// The node IDs of a walk.
pub open spec fn walk_ids_of(nodes: Seq<WalkNode>) -> Seq<Seq<char>> {
    nodes.map_values(|w: WalkNode| w.id@)
}

/// `tree walk`: the tree's nodes in topological order of their causes
/// (Kahn's algorithm, ties taken in ascending order of ID), the nodes it
/// cannot order appended in order of attachment; `reverse` gives the
/// opposite order. Each node comes with its role and the IDs of the edges
/// into and out of it.
pub fn tree_walk(tree: &Tree, order: &str) -> (r: TreeWalkData)
    requires total_causes(tree.edges@) <= usize::MAX,
    ensures
        r.tree_id@ == tree.id@,
        r.order@ == order@,
        (if order@ == "reverse"@ { walk_ids_of(r.nodes@).reverse() } else { walk_ids_of(r.nodes@) }) == kahn_walk(*tree),
        walk_order(if order@ == "reverse"@ { walk_ids_of(r.nodes@).reverse() } else { walk_ids_of(r.nodes@) }, *tree),
        forall|k: int| 0 <= k < r.nodes@.len() ==> walk_node_of(#[trigger] r.nodes@[k], *tree, r.nodes@[k].id@),
{
    let ids = walk_ids(tree);
    let reverse = owned(order) == owned("reverse");
    let n = ids.len();
    let mut nodes: Vec<WalkNode> = Vec::new();
    let mut i: usize = 0;
    while i < n
        invariant
            n == ids@.len(),
            i <= n,
            nodes@.len() == i,
            forall|k: int| 0 <= k < i ==> walk_node_of(#[trigger] nodes@[k], *tree, nodes@[k].id@),
            forall|k: int| 0 <= k < i ==> (#[trigger] nodes@[k]).id@ == if reverse { ids@[n - 1 - k]@ } else { ids@[k]@ },
        decreases n - i,
    {
        let idx = if reverse { n - 1 - i } else { i };
        nodes.push(walk_node(tree, &ids[idx]));
        i = i + 1;
    }
    proof {
        let w = walk_ids_of(nodes@);
        if reverse {
            assert(w.reverse() =~= views(ids@));
        } else {
            assert(w =~= views(ids@));
        }
    }
    TreeWalkData { tree_id: tree.id.clone(), order: owned(order), nodes }
}

} // verus!
