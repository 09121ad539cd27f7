//! Cycle detection on the causal edges of a tree.
use vstd::prelude::*;
use crate::errors::LtpError;
use crate::link::types::Edge;
use crate::strutil::{has_id, owned, views};

verus! {

/// `a` is a cause of `b` through some edge (`a` in its `from`, `b` its `to`).
pub open spec fn has_edge(edges: Seq<Edge>, a: Seq<char>, b: Seq<char>) -> bool {
    exists|i: int, j: int|
        0 <= i < edges.len() && 0 <= j < edges[i].from@.len()
        && #[trigger] edges[i].from@[j]@ == a && edges[i].to@ == b
}

/// Consecutive elements of `p` are joined by edges.
pub open spec fn is_walk(edges: Seq<Edge>, p: Seq<Seq<char>>) -> bool {
    forall|k: int| 0 <= k < p.len() - 1 ==> has_edge(edges, #[trigger] p[k], p[k + 1])
}

/// A closed walk: it returns to the node it starts from.
pub open spec fn is_cycle(edges: Seq<Edge>, p: Seq<Seq<char>>) -> bool {
    &&& p.len() >= 2
    &&& is_walk(edges, p)
    &&& p[0] == p[p.len() - 1]
}

/// The edges form a directed acyclic graph.
pub open spec fn acyclic(edges: Seq<Edge>) -> bool {
    forall|p: Seq<Seq<char>>| !is_cycle(edges, p)
}

/// Every endpoint of the edges is named once in `names`.
spec fn names_ok(edges: Seq<Edge>, names: Seq<String>) -> bool {
    &&& forall|x: int, y: int| 0 <= x < names.len() && 0 <= y < names.len() && #[trigger] names[x]@ == #[trigger] names[y]@ ==> x == y
    &&& forall|a: Seq<char>, b: Seq<char>| has_edge(edges, a, b) ==> has_id(names, a) && has_id(names, b)
}

/// Gray (on the current DFS path) and black (finished) marks, with the
/// finishing time of each finished node.
struct DfsState {
    colors: Vec<u8>,
    path: Vec<usize>,
    fin: Ghost<Seq<int>>,
    time: Ghost<int>,
}

spec fn gedge(edges: Seq<Edge>, names: Seq<String>, x: int, y: int) -> bool {
    has_edge(edges, names[x]@, names[y]@)
}

spec fn dfs_inv(edges: Seq<Edge>, names: Seq<String>, st: DfsState) -> bool {
    let n = names.len();
    let c = st.colors@;
    let p = st.path@;
    &&& c.len() == n
    &&& st.fin@.len() == n
    &&& forall|x: int| 0 <= x < n ==> #[trigger] c[x] <= 2
    &&& forall|k: int| 0 <= k < p.len() ==> (#[trigger] p[k] as int) < n && c[p[k] as int] == 1
    &&& forall|x: int| 0 <= x < n && #[trigger] c[x] == 1 ==> exists|k: int| 0 <= k < p.len() && p[k] == x
    &&& forall|k: int| 0 <= k < p.len() - 1 ==> gedge(edges, names, #[trigger] p[k] as int, p[k + 1] as int)
    &&& forall|x: int| 0 <= x < n && #[trigger] c[x] == 2 ==> st.fin@[x] < st.time@
    &&& forall|x: int, y: int| 0 <= x < n && 0 <= y < n && #[trigger] c[x] == 2 && #[trigger] gedge(edges, names, x, y)
            ==> c[y] == 2 && st.fin@[y] < st.fin@[x]
}

spec fn count_white(c: Seq<u8>) -> nat
    decreases c.len(),
{
    if c.len() == 0 {
        0
    } else {
        count_white(c.drop_last()) + if c.last() == 0 { 1nat } else { 0nat }
    }
}

proof fn lemma_count_white_update(c: Seq<u8>, x: int, v: u8)
    requires 0 <= x < c.len(), c[x] == 0, v != 0,
    ensures count_white(c.update(x, v)) < count_white(c),
    decreases c.len(),
{
    let d = c.update(x, v);
    if x == c.len() - 1 {
        assert(d.drop_last() =~= c.drop_last());
    } else {
        lemma_count_white_update(c.drop_last(), x, v);
        assert(d.drop_last() =~= c.drop_last().update(x, v));
    }
}

proof fn lemma_count_white_nonwhite_update(c: Seq<u8>, x: int, v: u8)
    requires 0 <= x < c.len(), c[x] != 0, v != 0,
    ensures count_white(c.update(x, v)) == count_white(c),
    decreases c.len(),
{
    let d = c.update(x, v);
    if x == c.len() - 1 {
        assert(d.drop_last() =~= c.drop_last());
    } else {
        lemma_count_white_nonwhite_update(c.drop_last(), x, v);
        assert(d.drop_last() =~= c.drop_last().update(x, v));
    }
}

/// Index of the name equal to `x`.
fn name_index(names: &Vec<String>, x: &String) -> (r: usize)
    requires has_id(names@, x@),
    ensures r < names@.len(), names@[r as int]@ == x@,
{
    let mut i: usize = 0;
    while i < names.len()
        invariant
            i <= names.len(),
            has_id(names@, x@),
            forall|k: int| 0 <= k < i ==> names@[k]@ != x@,
        decreases names.len() - i,
    {
        if names[i] == *x {
            return i;
        }
        i = i + 1;
    }
    proof {
        let k = choose|k: int| 0 <= k < names@.len() && #[trigger] names@[k]@ == x@;
        assert(names@[k]@ == x@);
    }
    0
}

/// Appends `x` unless a string with the same view is present.
fn push_unique(names: &mut Vec<String>, x: &String)
    requires
        forall|a: int, b: int| 0 <= a < old(names)@.len() && 0 <= b < old(names)@.len()
            && #[trigger] old(names)@[a]@ == #[trigger] old(names)@[b]@ ==> a == b,
    ensures
        forall|a: int, b: int| 0 <= a < final(names)@.len() && 0 <= b < final(names)@.len()
            && #[trigger] final(names)@[a]@ == #[trigger] final(names)@[b]@ ==> a == b,
        forall|y: Seq<char>| has_id(final(names)@, y) <==> (has_id(old(names)@, y) || y == x@),
{
    if !crate::strutil::contains_string(names, x) {
        let ghost pre = names@;
        names.push(x.clone());
        proof {
            assert forall|y: Seq<char>| has_id(names@, y) <==> (has_id(pre, y) || y == x@) by {
                if has_id(names@, y) {
                    let k = choose|k: int| 0 <= k < names@.len() && #[trigger] names@[k]@ == y;
                    if k < pre.len() { assert(pre[k]@ == y); }
                }
                if has_id(pre, y) {
                    let k = choose|k: int| 0 <= k < pre.len() && #[trigger] pre[k]@ == y;
                    assert(names@[k]@ == y);
                }
                if y == x@ { assert(names@[pre.len() as int]@ == y); }
            }
        }
    } else {
        proof {
            assert forall|y: Seq<char>| has_id(names@, y) <==> (has_id(old(names)@, y) || y == x@) by {
            }
        }
    }
}

/// The distinct endpoints of the edges.
fn collect_names(edges: &Vec<Edge>) -> (names: Vec<String>)
    ensures names_ok(edges@, names@),
{
    let mut names: Vec<String> = Vec::new();
    let mut i: usize = 0;
    while i < edges.len()
        invariant
            i <= edges.len(),
            forall|a: int, b: int| 0 <= a < names@.len() && 0 <= b < names@.len()
                && #[trigger] names@[a]@ == #[trigger] names@[b]@ ==> a == b,
            forall|i2: int, j2: int| 0 <= i2 < i && 0 <= j2 < edges@[i2].from@.len() ==>
                has_id(names@, #[trigger] edges@[i2].from@[j2]@) && has_id(names@, edges@[i2].to@),
        decreases edges.len() - i,
    {
        let e = &edges[i];
        let mut j: usize = 0;
        while j < e.from.len()
            invariant
                i < edges.len(),
                *e == edges@[i as int],
                j <= e.from@.len(),
                forall|a: int, b: int| 0 <= a < names@.len() && 0 <= b < names@.len()
                    && #[trigger] names@[a]@ == #[trigger] names@[b]@ ==> a == b,
                forall|i2: int, j2: int| 0 <= i2 < i && 0 <= j2 < edges@[i2].from@.len() ==>
                    has_id(names@, #[trigger] edges@[i2].from@[j2]@) && has_id(names@, edges@[i2].to@),
                forall|j2: int| 0 <= j2 < j ==> has_id(names@, #[trigger] e.from@[j2]@),
            decreases e.from@.len() - j,
        {
            push_unique(&mut names, &e.from[j]);
            j = j + 1;
        }
        push_unique(&mut names, &e.to);
        i = i + 1;
    }
    proof {
        assert forall|a: Seq<char>, b: Seq<char>| has_edge(edges@, a, b) implies has_id(names@, a) && has_id(names@, b) by {
            let (i2, j2) = choose|i2: int, j2: int|
                0 <= i2 < edges@.len() && 0 <= j2 < edges@[i2].from@.len()
                && #[trigger] edges@[i2].from@[j2]@ == a && edges@[i2].to@ == b;
            assert(has_id(names@, edges@[i2].from@[j2]@));
        }
    }
    names
}

/// The cycle closed by the back edge from the last node of `path` to the
/// gray node `v`: the part of the path from `v` on, then `v` again.
fn close_cycle(path: &Vec<usize>, v: usize, edges: &Vec<Edge>, names: &Vec<String>) -> (c: Vec<usize>)
    requires
        path@.len() > 0,
        exists|k: int| 0 <= k < path@.len() && path@[k] == v,
        forall|k: int| 0 <= k < path@.len() ==> (#[trigger] path@[k] as int) < names@.len(),
        forall|k: int| 0 <= k < path@.len() - 1 ==> gedge(edges@, names@, #[trigger] path@[k] as int, path@[k + 1] as int),
        gedge(edges@, names@, path@.last() as int, v as int),
    ensures
        c@.len() >= 2,
        c@[0] == c@[c@.len() - 1],
        forall|k: int| 0 <= k < c@.len() ==> (#[trigger] c@[k] as int) < names@.len(),
        forall|k: int| 0 <= k < c@.len() - 1 ==> gedge(edges@, names@, #[trigger] c@[k] as int, c@[k + 1] as int),
{
    let ghost p = path@;
    let mut pos: usize = 0;
    while path[pos] != v
        invariant
            pos < path.len(),
            path@ == p,
            exists|k: int| pos <= k < p.len() && p[k] == v,
        decreases p.len() - pos,
    {
        proof {
            let k = choose|k: int| pos <= k < p.len() && p[k] == v;
            assert(k != pos);
            assert(pos + 1 < p.len());
        }
        pos = pos + 1;
    }
    let mut cyc: Vec<usize> = Vec::new();
    let mut q: usize = pos;
    while q < path.len()
        invariant
            pos <= q <= p.len(),
            path@ == p,
            p[pos as int] == v,
            cyc@ == p.subrange(pos as int, q as int),
        decreases p.len() - q,
    {
        cyc.push(path[q]);
        q = q + 1;
        assert(cyc@ =~= p.subrange(pos as int, q as int));
    }
    cyc.push(v);
    proof {
        assert forall|k: int| 0 <= k < cyc@.len() - 1 implies gedge(edges@, names@, #[trigger] cyc@[k] as int, cyc@[k + 1] as int) by {
            if k < cyc@.len() - 2 {
                assert(cyc@[k] == p[pos + k] && cyc@[k + 1] == p[pos + k + 1]);
            } else {
                assert(cyc@[k] == p[p.len() - 1]);
            }
        }
        assert forall|k: int| 0 <= k < cyc@.len() implies (#[trigger] cyc@[k] as int) < names@.len() by {
            if k < cyc@.len() - 1 {
                assert(cyc@[k] == p[pos + k]);
            }
        }
    }
    cyc
}

/// Finishing a gray node whose successors are all finished keeps the
/// search invariant.
proof fn lemma_finish(edges: Seq<Edge>, names: Seq<String>, entry: DfsState, pre: DfsState, post: DfsState, u: int)
    requires
        dfs_inv(edges, names, entry),
        dfs_inv(edges, names, pre),
        0 <= u < names.len(),
        entry.colors@[u] == 0,
        pre.path@ == entry.path@.push(u as usize),
        pre.colors@[u] == 1,
        forall|x: int| 0 <= x < names.len() && #[trigger] entry.colors@[x] == 2 ==> pre.colors@[x] == 2,
        forall|y: int| 0 <= y < names.len() && #[trigger] gedge(edges, names, u, y) ==> pre.colors@[y] == 2,
        post.path@ == entry.path@,
        post.colors@ == pre.colors@.update(u, 2),
        post.fin@ == pre.fin@.update(u, pre.time@),
        post.time@ == pre.time@ + 1,
    ensures dfs_inv(edges, names, post),
{
    let n = names.len();
    let c = post.colors@;
    let p = post.path@;
    let p1 = pre.path@;
    assert forall|k: int| 0 <= k < p.len() implies (#[trigger] p[k] as int) < n && c[p[k] as int] == 1 by {
        assert(p[k] == p1[k]);
        if p[k] == u {
            assert(entry.colors@[u as int] == 1);
        }
    }
    assert forall|x: int| 0 <= x < n && #[trigger] c[x] == 1 implies exists|k: int| 0 <= k < p.len() && p[k] == x by {
        assert(pre.colors@[x] == 1);
        let k = choose|k: int| 0 <= k < p1.len() && p1[k] == x;
        if k == p1.len() - 1 {
            assert(x == u);
        } else {
            assert(p[k] == x);
        }
    }
    assert forall|k: int| 0 <= k < p.len() - 1 implies gedge(edges, names, #[trigger] p[k] as int, p[k + 1] as int) by {
        assert(p[k] == p1[k] && p[k + 1] == p1[k + 1]);
    }
    assert forall|x: int, y: int| 0 <= x < n && 0 <= y < n && #[trigger] c[x] == 2 && #[trigger] gedge(edges, names, x, y)
        implies c[y] == 2 && post.fin@[y] < post.fin@[x] by {
        if x == u {
            assert(pre.colors@[y] == 2);
            assert(y != u);
        } else {
            assert(pre.colors@[x] == 2);
            assert(pre.colors@[y] == 2);
            if y == u {
                assert(false);
            }
        }
    }
}

/// Depth-first search from the white node `u`. Returns a cycle of node
/// indices when a back edge is met; otherwise finishes `u`.
#[verifier::rlimit(80)]
fn find_cycle(st: &mut DfsState, edges: &Vec<Edge>, names: &Vec<String>, u: usize) -> (r: Option<Vec<usize>>)
    requires
        names_ok(edges@, names@),
        dfs_inv(edges@, names@, *old(st)),
        u < names@.len(),
        old(st).colors@[u as int] == 0,
        old(st).path@.len() > 0 ==> gedge(edges@, names@, old(st).path@.last() as int, u as int),
    ensures
        match r {
            None => {
                &&& dfs_inv(edges@, names@, *final(st))
                &&& final(st).path@ == old(st).path@
                &&& final(st).colors@[u as int] == 2
                &&& forall|x: int| 0 <= x < names@.len() && #[trigger] old(st).colors@[x] == 2 ==>
                        final(st).colors@[x] == 2 && final(st).fin@[x] == old(st).fin@[x]
                &&& forall|x: int| 0 <= x < names@.len() && old(st).colors@[x] != 0 ==> #[trigger] final(st).colors@[x] != 0
                &&& count_white(final(st).colors@) < count_white(old(st).colors@)
            },
            Some(c) => {
                &&& c@.len() >= 2
                &&& c@[0] == c@[c@.len() - 1]
                &&& forall|k: int| 0 <= k < c@.len() ==> (#[trigger] c@[k] as int) < names@.len()
                &&& forall|k: int| 0 <= k < c@.len() - 1 ==> gedge(edges@, names@, #[trigger] c@[k] as int, c@[k + 1] as int)
            },
        },
    decreases count_white(st.colors@),
{
    let n = names.len();
    let ghost c0 = st.colors@;
    proof { lemma_count_white_update(st.colors@, u as int, 1); }
    st.colors.set(u, 1);
    st.path.push(u);
    let ghost p1 = st.path@;
    let ghost entry = *old(st);
    assert(dfs_inv(edges@, names@, *st)) by {
        let c = st.colors@;
        let p = st.path@;
        assert forall|x: int| 0 <= x < n && #[trigger] c[x] == 1 implies exists|k: int| 0 <= k < p.len() && p[k] == x by {
            if x == u {
                assert(p[p.len() - 1] == u);
            } else {
                assert(entry.colors@[x] == 1);
                let k = choose|k: int| 0 <= k < entry.path@.len() && entry.path@[k] == x;
                assert(p[k] == x);
            }
        }
        assert forall|k: int| 0 <= k < p.len() - 1 implies gedge(edges@, names@, #[trigger] p[k] as int, p[k + 1] as int) by {
            if k < p.len() - 2 {
                assert(p[k] == entry.path@[k] && p[k + 1] == entry.path@[k + 1]);
            }
        }
    }
    let mut i: usize = 0;
    while i < edges.len()
        invariant
            n == names@.len(),
            u < n,
            names_ok(edges@, names@),
            dfs_inv(edges@, names@, *st),
            st.path@ == p1,
            p1 == entry.path@.push(u),
            st.colors@[u as int] == 1,
            i <= edges@.len(),
            forall|x: int| 0 <= x < n && #[trigger] entry.colors@[x] == 2 ==>
                st.colors@[x] == 2 && st.fin@[x] == entry.fin@[x],
            forall|x: int| 0 <= x < n && entry.colors@[x] != 0 ==> #[trigger] st.colors@[x] != 0,
            count_white(st.colors@) < count_white(old(st).colors@),
            forall|y: int, i2: int, j2: int| 0 <= y < n && 0 <= i2 < i && 0 <= j2 < edges@[i2].from@.len()
                && #[trigger] edges@[i2].from@[j2]@ == names@[u as int]@ && edges@[i2].to@ == #[trigger] names@[y]@
                ==> st.colors@[y] == 2,
        decreases edges@.len() - i,
    {
        let e = &edges[i];
        let mut j: usize = 0;
        while j < e.from.len()
            invariant
                n == names@.len(),
                u < n,
                i < edges@.len(),
                *e == edges@[i as int],
                j <= e.from@.len(),
                names_ok(edges@, names@),
                dfs_inv(edges@, names@, *st),
                st.path@ == p1,
                p1 == entry.path@.push(u),
                st.colors@[u as int] == 1,
                forall|x: int| 0 <= x < n && #[trigger] entry.colors@[x] == 2 ==>
                    st.colors@[x] == 2 && st.fin@[x] == entry.fin@[x],
                forall|x: int| 0 <= x < n && entry.colors@[x] != 0 ==> #[trigger] st.colors@[x] != 0,
                count_white(st.colors@) < count_white(old(st).colors@),
                forall|y: int, i2: int, j2: int| 0 <= y < n && 0 <= i2 < i && 0 <= j2 < edges@[i2].from@.len()
                    && #[trigger] edges@[i2].from@[j2]@ == names@[u as int]@ && edges@[i2].to@ == #[trigger] names@[y]@
                    ==> st.colors@[y] == 2,
                forall|y: int, j2: int| 0 <= y < n && 0 <= j2 < j
                    && #[trigger] e.from@[j2]@ == names@[u as int]@ && e.to@ == #[trigger] names@[y]@
                    ==> st.colors@[y] == 2,
            decreases e.from@.len() - j,
        {
            if e.from[j] == names[u] {
                proof {
                    assert(has_edge(edges@, names@[u as int]@, e.to@));
                }
                let v = name_index(names, &e.to);
                proof {
                    assert(gedge(edges@, names@, u as int, v as int));
                }
                if st.colors[v] == 1 {
                    let cyc = close_cycle(&st.path, v, edges, names);
                    return Some(cyc);
                } else if st.colors[v] == 0 {
                    assert(count_white(st.colors@) < count_white(old(st).colors@));
                    let r = find_cycle(st, edges, names, v);
                    match r {
                        Some(c) => {
                            return Some(c);
                        },
                        None => {},
                    }
                }
            }
            j = j + 1;
        }
        i = i + 1;
    }
    // Every successor of `u` is finished: finish `u`.
    let ghost pre = *st;
    proof {
        assert forall|y: int| 0 <= y < n && #[trigger] gedge(edges@, names@, u as int, y) implies pre.colors@[y] == 2 by {
            let (i2, j2) = choose|i2: int, j2: int|
                0 <= i2 < edges@.len() && 0 <= j2 < edges@[i2].from@.len()
                && #[trigger] edges@[i2].from@[j2]@ == names@[u as int]@ && edges@[i2].to@ == names@[y]@;
        }
        lemma_count_white_nonwhite_update(st.colors@, u as int, 2);
    }
    st.path.pop();
    st.colors.set(u, 2);
    st.fin = Ghost(pre.fin@.update(u as int, pre.time@));
    st.time = Ghost(pre.time@ + 1);
    proof {
        assert(st.path@ =~= entry.path@);
        lemma_finish(edges@, names@, entry, pre, *st, u as int);
    }
    None
}

/// Whether the edges form a DAG. On a cycle, reports it: the node ids along
/// a closed walk, first and last equal.
pub fn check_dag(edges: &Vec<Edge>, tree_id: &str) -> (r: Result<(), LtpError>)
    ensures
        r is Ok <==> acyclic(edges@),
        r matches Err(e) ==> e matches LtpError::CircularDependencyDetected { tree_id: t, cycle_path: c }
            && t@ == tree_id@ && is_cycle(edges@, views(c@)),
{
    let names = collect_names(edges);
    let n = names.len();
    let mut colors: Vec<u8> = Vec::new();
    let mut k: usize = 0;
    while k < n
        invariant
            k <= n,
            colors@.len() == k,
            forall|x: int| 0 <= x < k ==> colors@[x] == 0,
        decreases n - k,
    {
        colors.push(0);
        k = k + 1;
    }
    let mut st = DfsState {
        colors,
        path: Vec::new(),
        fin: Ghost(Seq::new(n as nat, |x: int| 0int)),
        time: Ghost(0int),
    };
    let mut u: usize = 0;
    while u < n
        invariant
            n == names@.len(),
            u <= n,
            names_ok(edges@, names@),
            dfs_inv(edges@, names@, st),
            st.path@.len() == 0,
            forall|x: int| 0 <= x < u ==> #[trigger] st.colors@[x] == 2,
        decreases n - u,
    {
        if st.colors[u] == 0 {
            match find_cycle(&mut st, edges, &names, u) {
                Some(c) => {
                    let mut path: Vec<String> = Vec::new();
                    let mut q: usize = 0;
                    while q < c.len()
                        invariant
                            q <= c@.len(),
                            path@.len() == q,
                            forall|t: int| 0 <= t < c@.len() ==> (#[trigger] c@[t] as int) < names@.len(),
                            forall|t: int| 0 <= t < q ==> (#[trigger] path@[t])@ == names@[c@[t] as int]@,
                        decreases c@.len() - q,
                    {
                        path.push(names[c[q]].clone());
                        q = q + 1;
                    }
                    proof {
                        let pv = views(path@);
                        assert forall|t: int| 0 <= t < pv.len() - 1 implies has_edge(edges@, #[trigger] pv[t], pv[t + 1]) by {
                            assert(gedge(edges@, names@, c@[t] as int, c@[t + 1] as int));
                        }
                        assert(is_cycle(edges@, pv));
                    }
                    return Err(LtpError::CircularDependencyDetected { tree_id: owned(tree_id), cycle_path: path });
                },
                None => {},
            }
        } else {
            assert(st.colors@[u as int] == 2) by {
                if st.colors@[u as int] == 1 {
                    assert(false);
                }
            }
        }
        u = u + 1;
    }
    proof {
        assert forall|p: Seq<Seq<char>>| !is_cycle(edges@, p) by {
            lemma_no_cycle(edges@, names@, st, p);
        }
    }
    Ok(())
}

spec fn name_idx(names: Seq<String>, a: Seq<char>) -> int {
    choose|x: int| 0 <= x < names.len() && names[x]@ == a
}

/// On a fully finished search, finishing times strictly decrease along
/// every walk, so no walk can close.
proof fn lemma_no_cycle(edges: Seq<Edge>, names: Seq<String>, st: DfsState, p: Seq<Seq<char>>)
    requires
        names_ok(edges, names),
        dfs_inv(edges, names, st),
        forall|x: int| 0 <= x < names.len() ==> #[trigger] st.colors@[x] == 2,
    ensures !is_cycle(edges, p),
{
    if !is_cycle(edges, p) {
        return;
    }
    assert forall|k: int| 0 <= k < p.len() implies has_id(names, #[trigger] p[k]) by {
        if k < p.len() - 1 {
            assert(has_edge(edges, p[k], p[k + 1]));
        } else {
            assert(has_edge(edges, p[k - 1], p[k]));
        }
    }
    lemma_fin_decreasing(edges, names, st, p, p.len() - 1);
}

proof fn lemma_fin_decreasing(edges: Seq<Edge>, names: Seq<String>, st: DfsState, p: Seq<Seq<char>>, k: int)
    requires
        names_ok(edges, names),
        dfs_inv(edges, names, st),
        forall|x: int| 0 <= x < names.len() ==> #[trigger] st.colors@[x] == 2,
        is_walk(edges, p),
        forall|t: int| 0 <= t < p.len() ==> has_id(names, #[trigger] p[t]),
        1 <= k < p.len(),
    ensures
        st.fin@[name_idx(names, p[k])] < st.fin@[name_idx(names, p[0])],
    decreases k,
{
    assert(has_id(names, p[k - 1]));
    assert(has_id(names, p[k]));
    let a = name_idx(names, p[k - 1]);
    let b = name_idx(names, p[k]);
    assert(names[a]@ == p[k - 1]);
    assert(names[b]@ == p[k]);
    assert(has_edge(edges, p[k - 1], p[k]));
    assert(gedge(edges, names, a, b));
    assert(st.colors@[a] == 2);
    if k > 1 {
        lemma_fin_decreasing(edges, names, st, p, k - 1);
    }
}

} // verus!
