//! Assumptions of long arrows: gathering the interior assumptions of a
//! macro edge and comparing them with its authored summary.
use vstd::prelude::*;
use crate::link::types::{assumption_views, clone_assumptions, edge_ids, find_edge, first_at, Assumption, AssumptionView};
use crate::strutil::{
    contains_string, filter_seq, has_id, lemma_filter_step, lemma_has_id_views, lemma_take_all, sorted_unique,
    strictly_sorted, views,
};
use crate::tree::types::{MacroAssumption, MacroEdge, Tree};

verus! {

/// A gathered interior link: its ID and its assumptions.
pub type GatheredLink = (String, Vec<Assumption>);

/// The keys of a gathering.
pub open spec fn gathered_keys(g: Seq<GatheredLink>) -> Seq<String> {
    g.map_values(|p: GatheredLink| p.0)
}

/// `g` is the gathering of the macro edge's interior assumptions: one
/// entry per interior link that is an edge of the tree, in ascending order
/// of link ID without repetitions, each with the assumptions of the first
/// edge of that ID.
pub open spec fn is_gathering(g: Seq<GatheredLink>, tree: Tree, me: MacroEdge) -> bool {
    &&& strictly_sorted(gathered_keys(g))
    &&& forall|y: Seq<char>| has_id(gathered_keys(g), y)
            <==> (has_id(me.interior_links@, y) && edge_ids(tree.edges@).contains(y))
    &&& forall|k: int, i: int| 0 <= k < g.len() && #[trigger] first_at(edge_ids(tree.edges@), g[k].0@, i)
            ==> assumption_views(g[k].1@) == tree.edges@[i]@.assumptions
}

/// Collects the assumptions of the interior links of a long arrow, grouped
/// by link in ascending order of link ID. Interior links that are no longer
/// edges of the tree are left out; links without assumptions appear with an
/// empty list.
pub fn gather_interior_assumptions(tree: &Tree, macro_edge: &MacroEdge) -> (r: Vec<GatheredLink>)
    ensures is_gathering(r@, *tree, *macro_edge),
{
    let links = &macro_edge.interior_links;
    let mut present: Vec<String> = Vec::new();
    let mut i: usize = 0;
    while i < links.len()
        invariant
            i <= links@.len(),
            forall|y: Seq<char>| has_id(present@, y)
                <==> (has_id(links@.take(i as int), y) && edge_ids(tree.edges@).contains(y)),
        decreases links@.len() - i,
    {
        let ghost pre = present@;
        match find_edge(&tree.edges, links[i].as_str()) {
            Some(_) => { present.push(links[i].clone()); },
            None => {},
        }
        proof {
            let t0 = links@.take(i as int);
            let t1 = links@.take(i + 1);
            assert forall|y: Seq<char>| has_id(present@, y)
                <==> (has_id(t1, y) && edge_ids(tree.edges@).contains(y)) by {
                if has_id(t0, y) {
                    let k = choose|k: int| 0 <= k < t0.len() && #[trigger] t0[k]@ == y;
                    assert(t1[k]@ == y);
                }
                if has_id(t1, y) {
                    let k = choose|k: int| 0 <= k < t1.len() && #[trigger] t1[k]@ == y;
                    if k < i { assert(t0[k]@ == y); }
                }
                if has_id(pre, y) {
                    let k = choose|k: int| 0 <= k < pre.len() && #[trigger] pre[k]@ == y;
                    assert(present@[k]@ == y);
                }
                if has_id(present@, y) {
                    let k = choose|k: int| 0 <= k < present@.len() && #[trigger] present@[k]@ == y;
                    if k < pre.len() { assert(pre[k]@ == y); }
                }
                assert(t1[i as int] == links@[i as int]);
                if present@.len() > pre.len() { assert(present@[pre.len() as int] == links@[i as int]); }
            }
        }
        i = i + 1;
    }
    proof { lemma_take_all(links@); }
    let keys = sorted_unique(&present);
    let mut r: Vec<GatheredLink> = Vec::new();
    let mut j: usize = 0;
    while j < keys.len()
        invariant
            j <= keys@.len(),
            forall|y: Seq<char>| has_id(keys@, y) <==> (has_id(links@, y) && edge_ids(tree.edges@).contains(y)),
            links@ == macro_edge.interior_links@,
            r@.len() == j,
            forall|k: int| 0 <= k < j ==> (#[trigger] r@[k]).0 == keys@[k],
            forall|k: int, i: int| 0 <= k < j && #[trigger] first_at(edge_ids(tree.edges@), r@[k].0@, i)
                ==> assumption_views(r@[k].1@) == tree.edges@[i]@.assumptions,
        decreases keys@.len() - j,
    {
        proof { assert(has_id(keys@, keys@[j as int]@)); }
        let e = find_edge(&tree.edges, keys[j].as_str());
        let e = match e { Some(e) => e, None => { proof { assert(false); } 0 } };
        let ghost pre = r@;
        r.push((keys[j].clone(), clone_assumptions(&tree.edges[e].assumptions)));
        proof {
            assert forall|k: int, i: int| 0 <= k < j + 1 && #[trigger] first_at(edge_ids(tree.edges@), r@[k].0@, i)
                implies assumption_views(r@[k].1@) == tree.edges@[i]@.assumptions by {
                if k < j {
                    assert(r@[k] == pre[k]);
                } else {
                    if i < e { assert(edge_ids(tree.edges@)[i] != keys@[j as int]@); }
                    if e < i { assert(edge_ids(tree.edges@)[e as int] != keys@[j as int]@); }
                }
            }
        }
        j = j + 1;
    }
    proof {
        assert(gathered_keys(r@) =~= keys@);
    }
    r
}

/// The IDs of the gathered interior assumptions, link after link.
pub open spec fn interior_asm_ids(g: Seq<GatheredLink>) -> Seq<Seq<char>>
    decreases g.len(),
{
    if g.len() == 0 {
        Seq::empty()
    } else {
        interior_asm_ids(g.drop_last()) + assumption_views(g.last().1@).map_values(|a: AssumptionView| a.id)
    }
}

/// The projection references of the summary, assumption after assumption.
pub open spec fn summary_refs(masms: Seq<MacroAssumption>) -> Seq<Seq<char>>
    decreases masms.len(),
{
    if masms.len() == 0 { Seq::empty() } else { summary_refs(masms.drop_last()) + views(masms.last().projection_refs@) }
}

/// Difference between the interior and the summary of a long arrow.
#[derive(Debug, Clone)]
pub struct MacroDiff {
    /// Interior assumptions that no summary assumption refers to.
    pub unmapped: Vec<String>,
    /// Summary references that name neither a gathered link nor one of its
    /// assumptions (a link that left the tree is no longer gathered).
    pub dangling: Vec<String>,
}

/// The unmapped interior assumptions.
pub open spec fn unmapped_of(g: Seq<GatheredLink>, me: MacroEdge) -> Seq<Seq<char>> {
    filter_seq(interior_asm_ids(g), |a: Seq<char>| !summary_refs(me.assumptions@).contains(a))
}

/// The dangling summary references.
pub open spec fn dangling_of(g: Seq<GatheredLink>, me: MacroEdge) -> Seq<Seq<char>> {
    filter_seq(summary_refs(me.assumptions@),
        |x: Seq<char>| !interior_asm_ids(g).contains(x) && !views(gathered_keys(g)).contains(x))
}

pub(crate) fn asm_ids_of(g: &Vec<GatheredLink>) -> (r: Vec<String>)
    ensures views(r@) == interior_asm_ids(g@),
{
    let mut r: Vec<String> = Vec::new();
    let mut i: usize = 0;
    while i < g.len()
        invariant
            i <= g@.len(),
            views(r@) == interior_asm_ids(g@.take(i as int)),
        decreases g@.len() - i,
    {
        proof {
            let t = g@.take(i + 1);
            assert(t.drop_last() =~= g@.take(i as int));
            assert(t.last() == g@[i as int]);
        }
        let asms = &g[i].1;
        let ghost base = views(r@);
        let mut j: usize = 0;
        while j < asms.len()
            invariant
                j <= asms@.len(),
                i < g@.len(),
                asms@ == g@[i as int].1@,
                views(r@) == base + assumption_views(asms@).map_values(|a: AssumptionView| a.id).take(j as int),
            decreases asms@.len() - j,
        {
            let ghost pre = r@;
            r.push(asms[j].id.clone());
            proof {
                assert(views(r@) =~= views(pre).push(asms@[j as int].id@));
                assert(assumption_views(asms@).map_values(|a: AssumptionView| a.id).take(j + 1)
                    =~= assumption_views(asms@).map_values(|a: AssumptionView| a.id).take(j as int).push(asms@[j as int].id@));
            }
            j = j + 1;
        }
        proof {
            lemma_take_all(assumption_views(asms@).map_values(|a: AssumptionView| a.id));
        }
        i = i + 1;
    }
    proof { lemma_take_all(g@); }
    r
}

fn refs_of(masms: &Vec<MacroAssumption>) -> (r: Vec<String>)
    ensures views(r@) == summary_refs(masms@),
{
    let mut r: Vec<String> = Vec::new();
    let mut i: usize = 0;
    while i < masms.len()
        invariant
            i <= masms@.len(),
            views(r@) == summary_refs(masms@.take(i as int)),
        decreases masms@.len() - i,
    {
        proof {
            let t = masms@.take(i + 1);
            assert(t.drop_last() =~= masms@.take(i as int));
            assert(t.last() == masms@[i as int]);
        }
        let ghost pre = r@;
        crate::strutil::push_all(&mut r, &masms[i].projection_refs);
        proof { assert(views(r@) =~= views(pre) + views(masms@[i as int].projection_refs@)); }
        i = i + 1;
    }
    proof { lemma_take_all(masms@); }
    r
}

/// The elements of `v` that occur (`keep == true`) or do not occur in `other`.
fn filter_by_membership(v: &Vec<String>, other: &Vec<String>, also: &Vec<String>) -> (r: Vec<String>)
    ensures views(r@) == filter_seq(views(v@), |x: Seq<char>| !views(other@).contains(x) && !views(also@).contains(x)),
{
    let ghost p = |x: Seq<char>| !views(other@).contains(x) && !views(also@).contains(x);
    let mut r: Vec<String> = Vec::new();
    let mut i: usize = 0;
    while i < v.len()
        invariant
            i <= v@.len(),
            p == (|x: Seq<char>| !views(other@).contains(x) && !views(also@).contains(x)),
            views(r@) == filter_seq(views(v@).take(i as int), p),
        decreases v@.len() - i,
    {
        proof {
            lemma_filter_step(views(v@), p, i as int);
            lemma_has_id_views(other@, v@[i as int]@);
            lemma_has_id_views(also@, v@[i as int]@);
        }
        if !contains_string(other, &v[i]) && !contains_string(also, &v[i]) {
            let ghost pre = r@;
            r.push(v[i].clone());
            proof { assert(views(r@) =~= views(pre).push(v@[i as int]@)); }
        }
        i = i + 1;
    }
    proof { lemma_take_all(views(v@)); }
    r
}

/// The difference between a gathering and the summary of the macro edge.
pub fn summary_diff(g: &Vec<GatheredLink>, me: &MacroEdge) -> (r: MacroDiff)
    ensures
        views(r.unmapped@) == unmapped_of(g@, *me),
        views(r.dangling@) == dangling_of(g@, *me),
{
    let ids = asm_ids_of(g);
    let refs = refs_of(&me.assumptions);
    let none: Vec<String> = Vec::new();
    let unmapped = filter_by_membership(&ids, &refs, &none);
    let mut keys: Vec<String> = Vec::new();
    let mut i: usize = 0;
    while i < g.len()
        invariant
            i <= g@.len(),
            keys@ == gathered_keys(g@).take(i as int),
        decreases g@.len() - i,
    {
        keys.push(g[i].0.clone());
        proof { assert(keys@ =~= gathered_keys(g@).take(i + 1)); }
        i = i + 1;
    }
    proof {
        lemma_take_all(gathered_keys(g@));
        assert(views(none@) =~= Seq::<Seq<char>>::empty());
        assert((|x: Seq<char>| !views(refs@).contains(x) && !views(none@).contains(x))
            =~= (|a: Seq<char>| !summary_refs(me.assumptions@).contains(a)));
    }
    let dangling = filter_by_membership(&refs, &ids, &keys);
    proof {
        assert((|x: Seq<char>| !views(ids@).contains(x) && !views(keys@).contains(x))
            =~= (|x: Seq<char>| !interior_asm_ids(g@).contains(x) && !views(gathered_keys(g@)).contains(x)));
    }
    MacroDiff { unmapped, dangling }
}

/// The difference between the interior of a long arrow and its summary.
pub fn compute_diff(tree: &Tree, me: &MacroEdge) -> (r: MacroDiff)
    ensures
        exists|g: Seq<GatheredLink>| is_gathering(g, *tree, *me)
            && views(r.unmapped@) == unmapped_of(g, *me) && views(r.dangling@) == dangling_of(g, *me),
{
    let g = gather_interior_assumptions(tree, me);
    summary_diff(&g, me)
}

} // verus!
