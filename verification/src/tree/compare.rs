//! Comparing two trees, and walking a tree in topological order.
use vstd::prelude::*;
use crate::link::types::{Edge, Operator};
use crate::strutil::{
    cat3, cat5, contains_string, filter_seq, has_id, join_strings, joined, lemma_has_id_views, lemma_seq_lt_asym,
    lemma_seq_lt_irrefl, lemma_seq_lt_total, lemma_seq_lt_trans, lemma_take_all, owned, seq_lt, sorted_unique, str_lt,
    strictly_sorted, views,
};
use crate::tree::commands::{DiffEntry, TreeDiffData};
use crate::tree::types::Tree;

verus! {

/// `a` comes before `b` or equals it.
pub open spec fn seq_le(a: Seq<char>, b: Seq<char>) -> bool {
    seq_lt(a, b) || a == b
}

/// `x` inserted into an ordered sequence, after the elements not greater.
pub open spec fn insert_ordered(s: Seq<Seq<char>>, x: Seq<char>) -> Seq<Seq<char>>
    decreases s.len(),
{
    if s.len() == 0 {
        seq![x]
    } else if seq_le(s.last(), x) {
        s.push(x)
    } else {
        insert_ordered(s.drop_last(), x).push(s.last())
    }
}

/// The elements of `s` in ascending order (repetitions kept).
pub open spec fn sorted_seq(s: Seq<Seq<char>>) -> Seq<Seq<char>>
    decreases s.len(),
{
    if s.len() == 0 { Seq::empty() } else { insert_ordered(sorted_seq(s.drop_last()), s.last()) }
}

/// Inserting into `v` at `i`, where every element before `i` is not
/// greater than `x` and every later one is greater, is `insert_ordered`.
proof fn lemma_insert_at(v: Seq<Seq<char>>, x: Seq<char>, i: int)
    requires
        0 <= i <= v.len(),
        i > 0 ==> seq_le(v[i - 1], x),
        forall|k: int| i <= k < v.len() ==> seq_lt(x, #[trigger] v[k]),
    ensures insert_ordered(v, x) == v.subrange(0, i) + seq![x] + v.subrange(i, v.len() as int),
    decreases v.len() - i,
{
    if v.len() == 0 {
        assert(v.subrange(0, i) + seq![x] + v.subrange(i, v.len() as int) =~= seq![x]);
    } else if i == v.len() {
        assert(v.subrange(0, i) + seq![x] + v.subrange(i, v.len() as int) =~= v.push(x));
    } else {
        let last = v.last();
        assert(seq_lt(x, last));
        if seq_le(last, x) {
            if last == x { lemma_seq_lt_irrefl(x); } else { lemma_seq_lt_asym(x, last); }
        }
        lemma_insert_at(v.drop_last(), x, i);
        assert(insert_ordered(v.drop_last(), x).push(last)
            =~= v.subrange(0, i) + seq![x] + v.subrange(i, v.len() as int));
    }
}

/// Copies of the strings in ascending order, repetitions kept.
pub fn sort_strings(v: &Vec<String>) -> (r: Vec<String>)
    ensures views(r@) == sorted_seq(views(v@)),
{
    let mut r: Vec<String> = Vec::new();
    let mut j: usize = 0;
    while j < v.len()
        invariant
            j <= v@.len(),
            views(r@) == sorted_seq(views(v@).take(j as int)),
        decreases v@.len() - j,
    {
        let x = v[j].clone();
        let mut i = r.len();
        while i > 0 && str_lt(&x, &r[i - 1])
            invariant
                i <= r@.len(),
                forall|k: int| i <= k < r@.len() ==> seq_lt(x@, #[trigger] r@[k]@),
            decreases i,
        {
            i = i - 1;
        }
        proof {
            if i > 0 && x@ != r@[i - 1]@ {
                lemma_seq_lt_total(x@, r@[i - 1]@);
            }
            let t = views(v@).take(j + 1);
            assert(t.drop_last() =~= views(v@).take(j as int));
            assert(t.last() == x@);
            lemma_insert_at(views(r@), x@, i as int);
        }
        let ghost pre = r@;
        r.insert(i, x);
        proof {
            assert(views(r@) =~= views(pre).subrange(0, i as int) + seq![v@[j as int]@]
                + views(pre).subrange(i as int, views(pre).len() as int));
        }
        j = j + 1;
    }
    proof { lemma_take_all(views(v@)); }
    r
}

/// The debug name of an operator.
pub open spec fn operator_debug(op: Operator) -> Seq<char> {
    match op {
        Operator::Single => "Single"@,
        Operator::And => "And"@,
        Operator::Or => "Or"@,
        Operator::Mag => "Mag"@,
        Operator::Xor => "Xor"@,
    }
}

fn operator_debug_str(op: Operator) -> (r: &'static str)
    ensures r@ == operator_debug(op),
{
    match op {
        Operator::Single => "Single",
        Operator::And => "And",
        Operator::Or => "Or",
        Operator::Mag => "Mag",
        Operator::Xor => "Xor",
    }
}

/// The signature of an edge: `<causes sorted, joined by ,>-><effect>[<operator>]`.
pub open spec fn edge_sig(e: Edge) -> Seq<char> {
    joined(sorted_seq(views(e.from@)), ","@) + "->"@ + e.to@ + "["@ + operator_debug(e.operator) + "]"@
}

fn signature(e: &Edge) -> (r: String)
    ensures r@ == edge_sig(*e),
{
    let sorted = sort_strings(&e.from);
    let from = join_strings(&sorted, ",");
    let head = cat3(from.as_str(), "->", e.to.as_str());
    cat3(head.as_str(), "[", operator_debug_str(e.operator)).concat("]")
}

/// The signatures of the edges, in order.
pub open spec fn sigs(edges: Seq<Edge>) -> Seq<Seq<char>> {
    edges.map_values(|e: Edge| edge_sig(e))
}

fn signatures(edges: &Vec<Edge>) -> (r: Vec<String>)
    ensures views(r@) == sigs(edges@),
{
    let mut r: Vec<String> = Vec::new();
    let mut i: usize = 0;
    while i < edges.len()
        invariant
            i <= edges@.len(),
            views(r@) == sigs(edges@).take(i as int),
        decreases edges@.len() - i,
    {
        let s = signature(&edges[i]);
        let ghost pre = r@;
        r.push(s);
        proof {
            assert(views(r@) =~= views(pre).push(s@));
            assert(sigs(edges@).take(i + 1) =~= sigs(edges@).take(i as int).push(edge_sig(edges@[i as int])));
        }
        i = i + 1;
    }
    proof { lemma_take_all(sigs(edges@)); }
    r
}

/// `i` is the last position holding `x`.
pub open spec fn last_at(s: Seq<Seq<char>>, x: Seq<char>, i: int) -> bool {
    0 <= i < s.len() && s[i] == x && forall|k: int| i < k < s.len() ==> s[k] != x
}

/// `d` lists, in ascending order of signature, one entry per signature of
/// `mine` missing from `other`, with the ID of the last edge of `mine`
/// having that signature and the given change.
pub open spec fn diff_entries(d: Seq<DiffEntry>, mine: Seq<Edge>, other: Seq<Edge>, change: Seq<char>) -> bool {
    exists|keys: Seq<Seq<char>>| #[trigger] diff_with_keys(d, mine, other, change, keys)
}

/// `diff_entries`, with the signatures of the entries given.
pub open spec fn diff_with_keys(d: Seq<DiffEntry>, mine: Seq<Edge>, other: Seq<Edge>, change: Seq<char>, keys: Seq<Seq<char>>) -> bool {
    &&& keys.len() == d.len()
    &&& forall|a: int, b: int| 0 <= a < b < keys.len() ==> seq_lt(#[trigger] keys[a], #[trigger] keys[b])
    &&& forall|x: Seq<char>| keys.contains(x) <==> (sigs(mine).contains(x) && !sigs(other).contains(x))
    &&& forall|k: int| 0 <= k < d.len() ==> (#[trigger] d[k]).change@ == change
            && exists|i: int| last_at(sigs(mine), keys[k], i) && d[k].id@ == mine[i].id@
}

/// The distinct node IDs of `mine` absent from `other`, ascending.
pub open spec fn nodes_only_in(r: Seq<String>, mine: Seq<Seq<char>>, other: Seq<Seq<char>>) -> bool {
    &&& strictly_sorted(r)
    &&& forall|y: Seq<char>| has_id(r, y) <==> (mine.contains(y) && !other.contains(y))
}

/// The node IDs attached to a tree.
pub open spec fn tree_node_ids(t: Tree) -> Seq<Seq<char>> {
    t.nodes@.map_values(|n: crate::tree::types::NodeRef| n.node_ref@)
}

fn node_ids_of(t: &Tree) -> (r: Vec<String>)
    ensures views(r@) == tree_node_ids(*t),
{
    let mut r: Vec<String> = Vec::new();
    let mut i: usize = 0;
    while i < t.nodes.len()
        invariant
            i <= t.nodes@.len(),
            views(r@) == tree_node_ids(*t).take(i as int),
        decreases t.nodes@.len() - i,
    {
        let ghost pre = r@;
        r.push(t.nodes[i].node_ref.clone());
        proof {
            assert(views(r@) =~= views(pre).push(t.nodes@[i as int].node_ref@));
            assert(tree_node_ids(*t).take(i + 1) =~= tree_node_ids(*t).take(i as int).push(t.nodes@[i as int].node_ref@));
        }
        i = i + 1;
    }
    proof { lemma_take_all(tree_node_ids(*t)); }
    r
}

/// The strings of a strictly sorted `v` that are absent from `other`.
fn sorted_minus(v: &Vec<String>, other: &Vec<String>) -> (r: Vec<String>)
    requires strictly_sorted(v@),
    ensures
        strictly_sorted(r@),
        forall|y: Seq<char>| has_id(r@, y) <==> (has_id(v@, y) && !has_id(other@, y)),
{
    let mut r: Vec<String> = Vec::new();
    let mut i: usize = 0;
    while i < v.len()
        invariant
            i <= v@.len(),
            strictly_sorted(v@),
            forall|a: int| 0 <= a < r@.len() ==> exists|b: int| 0 <= b < i && (#[trigger] r@[a])@ == v@[b]@,
            forall|a: int, b: int| 0 <= a < b < r@.len() ==> seq_lt(#[trigger] r@[a]@, #[trigger] r@[b]@),
            r@.len() > 0 ==> exists|b: int| 0 <= b < i && r@[r@.len() - 1]@ == v@[b]@,
            forall|y: Seq<char>| has_id(r@, y) <==> (has_id(v@.take(i as int), y) && !has_id(other@, y)),
        decreases v@.len() - i,
    {
        let ghost pre = r@;
        if !contains_string(other, &v[i]) {
            r.push(v[i].clone());
            proof {
                assert forall|a: int, b: int| 0 <= a < b < r@.len() implies seq_lt(#[trigger] r@[a]@, #[trigger] r@[b]@) by {
                    if b == r@.len() - 1 {
                        let w = choose|w: int| 0 <= w < i && (#[trigger] pre[a])@ == v@[w]@;
                        assert(pre[a] == r@[a]);
                        assert(seq_lt(v@[w]@, v@[i as int]@));
                    } else {
                        assert(r@[a] == pre[a] && r@[b] == pre[b]);
                    }
                }
                assert forall|a: int| 0 <= a < r@.len() implies exists|b: int| 0 <= b < i + 1 && (#[trigger] r@[a])@ == v@[b]@ by {
                    if a < pre.len() {
                        assert(r@[a] == pre[a]);
                        let w = choose|w: int| 0 <= w < i && (#[trigger] pre[a])@ == v@[w]@;
                        assert(0 <= w < i + 1 && r@[a]@ == v@[w]@);
                    } else {
                        assert(r@[a]@ == v@[i as int]@);
                    }
                }
            }
        }
        proof {
            let t0 = v@.take(i as int);
            let t1 = v@.take(i + 1);
            assert forall|y: Seq<char>| has_id(r@, y) <==> (has_id(t1, y) && !has_id(other@, y)) by {
                if has_id(t1, y) {
                    let k = choose|k: int| 0 <= k < t1.len() && #[trigger] t1[k]@ == y;
                    if k < i { assert(t0[k]@ == y); }
                }
                if has_id(t0, y) {
                    let k = choose|k: int| 0 <= k < t0.len() && #[trigger] t0[k]@ == y;
                    assert(t1[k]@ == y);
                }
                if has_id(r@, y) {
                    let k = choose|k: int| 0 <= k < r@.len() && #[trigger] r@[k]@ == y;
                    if k < pre.len() { assert(r@[k] == pre[k]); }
                }
                if has_id(pre, y) {
                    let k = choose|k: int| 0 <= k < pre.len() && #[trigger] pre[k]@ == y;
                    assert(r@[k] == pre[k]);
                }
                assert(t1[i as int] == v@[i as int]);
                if r@.len() > pre.len() { assert(r@[pre.len() as int] == v@[i as int]); }
            }
        }
        i = i + 1;
    }
    proof { lemma_take_all(v@); }
    r
}

/// Position of the last string with the given view.
fn last_index(v: &Vec<String>, x: &String) -> (r: Option<usize>)
    ensures
        match r {
            Some(i) => last_at(views(v@), x@, i as int),
            None => !views(v@).contains(x@),
        },
{
    let mut i = v.len();
    while i > 0
        invariant
            i <= v@.len(),
            forall|k: int| i <= k < v@.len() ==> (#[trigger] v@[k])@ != x@,
        decreases i,
    {
        if v[i - 1] == *x {
            return Some(i - 1);
        }
        i = i - 1;
    }
    proof {
        if views(v@).contains(x@) {
            let k = choose|k: int| 0 <= k < views(v@).len() && views(v@)[k] == x@;
            assert(v@[k]@ != x@);
        }
    }
    None
}

fn diff_side(mine: &Vec<Edge>, other: &Vec<Edge>, change: &str) -> (r: Vec<DiffEntry>)
    ensures diff_entries(r@, mine@, other@, change@),
{
    let sm = signatures(mine);
    let so = signatures(other);
    let keys_all = sorted_unique(&sm);
    let keys = sorted_minus(&keys_all, &so);
    let mut r: Vec<DiffEntry> = Vec::new();
    let mut k: usize = 0;
    while k < keys.len()
        invariant
            k <= keys@.len(),
            views(sm@) == sigs(mine@),
            forall|y: Seq<char>| has_id(keys@, y) <==> (has_id(sm@, y) && !has_id(so@, y)),
            views(so@) == sigs(other@),
            r@.len() == k,
            forall|q: int| 0 <= q < k ==> (#[trigger] r@[q]).change@ == change@
                && exists|i: int| last_at(sigs(mine@), keys@[q]@, i) && r@[q].id@ == mine@[i].id@,
        decreases keys@.len() - k,
    {
        proof {
            assert(has_id(keys@, keys@[k as int]@));
            lemma_has_id_views(sm@, keys@[k as int]@);
        }
        let i = match last_index(&sm, &keys[k]) { Some(i) => i, None => { proof { assert(false); } 0 } };
        proof { assert(views(sm@)[i as int] == sm@[i as int]@); }
        let ghost pre = r@;
        r.push(DiffEntry { id: mine[i].id.clone(), change: owned(change) });
        proof {
            assert forall|q: int| 0 <= q < k + 1 implies (#[trigger] r@[q]).change@ == change@
                && exists|w: int| last_at(sigs(mine@), keys@[q]@, w) && r@[q].id@ == mine@[w].id@ by {
                if q < k { assert(r@[q] == pre[q]); } else { assert(last_at(sigs(mine@), keys@[q]@, i as int)); }
            }
        }
        k = k + 1;
    }
    proof {
        let ks = views(keys@);
        assert forall|a: int, b: int| 0 <= a < b < ks.len() implies seq_lt(#[trigger] ks[a], #[trigger] ks[b]) by {
            assert(ks[a] == keys@[a]@ && ks[b] == keys@[b]@);
        }
        assert forall|x: Seq<char>| ks.contains(x) <==> (sigs(mine@).contains(x) && !sigs(other@).contains(x)) by {
            lemma_has_id_views(keys@, x);
            lemma_has_id_views(sm@, x);
            lemma_has_id_views(so@, x);
        }
        assert forall|q: int| 0 <= q < r@.len() implies (#[trigger] r@[q]).change@ == change@
            && exists|i: int| last_at(sigs(mine@), ks[q], i) && r@[q].id@ == mine@[i].id@ by {
            assert(ks[q] == keys@[q]@);
        }
        assert(diff_with_keys(r@, mine@, other@, change@, ks));
    }
    r
}

/// `tree diff` between two loaded trees: the nodes of B not in A and of A
/// not in B, ascending; and the edges of B whose signature (sorted causes,
/// effect, operator) no edge of A has ("added"), and conversely ("removed"),
/// in ascending order of signature, each named by the last edge with it.
pub fn tree_diff(tree_a: &Tree, tree_b: &Tree) -> (r: TreeDiffData)
    ensures
        r.tree_a@ == tree_a.id@ && r.tree_b@ == tree_b.id@,
        nodes_only_in(r.nodes_added@, tree_node_ids(*tree_b), tree_node_ids(*tree_a)),
        nodes_only_in(r.nodes_removed@, tree_node_ids(*tree_a), tree_node_ids(*tree_b)),
        diff_entries(r.edges_added@, tree_b.edges@, tree_a.edges@, "added"@),
        diff_entries(r.edges_removed@, tree_a.edges@, tree_b.edges@, "removed"@),
{
    let na = node_ids_of(tree_a);
    let nb = node_ids_of(tree_b);
    let sa = sorted_unique(&na);
    let sb = sorted_unique(&nb);
    let added = sorted_minus(&sb, &na);
    let removed = sorted_minus(&sa, &nb);
    proof {
        assert forall|y: Seq<char>| has_id(added@, y) <==> (tree_node_ids(*tree_b).contains(y) && !tree_node_ids(*tree_a).contains(y)) by {
            lemma_has_id_views(nb@, y);
            lemma_has_id_views(na@, y);
        }
        assert forall|y: Seq<char>| has_id(removed@, y) <==> (tree_node_ids(*tree_a).contains(y) && !tree_node_ids(*tree_b).contains(y)) by {
            lemma_has_id_views(nb@, y);
            lemma_has_id_views(na@, y);
        }
    }
    TreeDiffData {
        tree_a: tree_a.id.clone(),
        tree_b: tree_b.id.clone(),
        nodes_added: added,
        nodes_removed: removed,
        edges_added: diff_side(&tree_b.edges, &tree_a.edges, "added"),
        edges_removed: diff_side(&tree_a.edges, &tree_b.edges, "removed"),
    }
}

} // verus!
