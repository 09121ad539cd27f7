//! Assumptions on edges: add, edit, list, move, remove, invalidate.
use vstd::prelude::*;
use vstd::multiset::Multiset;
use crate::link::types::{
    assumption_views, clone_assumption, clone_edge, clone_edges, edge_ids, edge_views, find_edge, first_at, Assumption,
    AssumptionStatus, AssumptionView, Edge, EdgeStatus, EdgeView,
};
use crate::link::commands::with_edges;
use crate::node::types::{new_node, EpistemicStatus, Node, NodeStatus, NodeType, NodeView};
use crate::output::{err_is, quoted_detail, quoted_error, OutputError, OutputWarning};
use crate::strutil::{ascii_lower, cat3, cat5, is_ascii_seq, filter_seq, lemma_filter_step, lemma_take_all, owned, spec_to_lowercase, to_lowercase};
use crate::tree::types::{Tree, TreeView};
use crate::workspace::counters::{minted, nth_id, Counters};

verus! {

/// The assumption status named by a lower-case string.
pub open spec fn assumption_status_named(l: Seq<char>) -> Option<AssumptionStatus> {
    if l == "valid"@ { Some(AssumptionStatus::Valid) }
    else if l == "invalid"@ { Some(AssumptionStatus::Invalid) }
    else if l == "needs_review"@ { Some(AssumptionStatus::NeedsReview) }
    else { None }
}

/// Parse an assumption status (case-insensitive).
pub fn parse_assumption_status(s: &str) -> (r: Option<AssumptionStatus>)
    ensures
        r == assumption_status_named(spec_to_lowercase(s@)),
        is_ascii_seq(s@) ==> (r == assumption_status_named(ascii_lower(s@))),
{
    let l = to_lowercase(s);
    if l == owned("valid") { Some(AssumptionStatus::Valid) }
    else if l == owned("invalid") { Some(AssumptionStatus::Invalid) }
    else if l == owned("needs_review") { Some(AssumptionStatus::NeedsReview) }
    else { None }
}

/// Data returned by `assume add`.
#[derive(Debug, Clone)]
pub struct AssumeAddData {
    pub id: String,
    pub link_id: String,
    pub tree_id: String,
    pub text: String,
}

/// Data returned by `assume edit`.
#[derive(Debug, Clone)]
pub struct AssumeEditData {
    pub id: String,
    pub tree_id: String,
    pub text: String,
}

/// Data returned by `assume list`.
#[derive(Debug, Clone)]
pub struct AssumeListData {
    pub tree_id: String,
    pub assumptions: Vec<AssumeListEntry>,
}

/// Single entry in the `assume list` result.
#[derive(Debug, Clone)]
pub struct AssumeListEntry {
    pub id: String,
    pub text: String,
    pub status: AssumptionStatus,
    pub link_id: String,
}

/// Data returned by `assume move`.
#[derive(Debug, Clone)]
pub struct AssumeMoveData {
    pub id: String,
    pub from_link: String,
    pub to_link: String,
    pub tree_id: String,
}

/// Data returned by `assume rm`.
#[derive(Debug, Clone)]
pub struct AssumeRmData {
    pub id: String,
    pub tree_id: String,
}

/// Data returned by `invalidate`.
#[derive(Debug, Clone)]
pub struct InvalidateData {
    pub asm_id: String,
    pub link_id: String,
    pub link_status: EdgeStatus,
    pub injection_id: Option<String>,
    pub changed: bool,
}

/// The IDs of an edge's assumptions.
pub open spec fn asm_ids(e: EdgeView) -> Seq<Seq<char>> {
    e.assumptions.map_values(|a: AssumptionView| a.id)
}

/// `i` is the first edge carrying assumption `a`.
pub open spec fn first_holder(edges: Seq<EdgeView>, a: Seq<char>, i: int) -> bool {
    &&& 0 <= i < edges.len()
    &&& asm_ids(edges[i]).contains(a)
    &&& forall|k: int| 0 <= k < i ==> !asm_ids(#[trigger] edges[k]).contains(a)
}

/// Some edge carries assumption `a`.
pub open spec fn in_some_edge(edges: Seq<EdgeView>, a: Seq<char>) -> bool {
    exists|i: int| 0 <= i < edges.len() && asm_ids(#[trigger] edges[i]).contains(a)
}

/// The edge with its assumptions replaced.
pub open spec fn with_asms(e: EdgeView, asms: Seq<AssumptionView>) -> EdgeView {
    EdgeView { assumptions: asms, ..e }
}

/// Position of the first assumption with the given ID in an edge.
fn find_asm_in(e: &Edge, asm_id: &String) -> (r: Option<usize>)
    ensures
        match r {
            Some(j) => first_at(asm_ids(e@), asm_id@, j as int),
            None => !asm_ids(e@).contains(asm_id@),
        },
{
    let mut j: usize = 0;
    while j < e.assumptions.len()
        invariant
            j <= e.assumptions@.len(),
            forall|k: int| 0 <= k < j ==> asm_ids(e@)[k] != asm_id@,
        decreases e.assumptions@.len() - j,
    {
        if e.assumptions[j].id == *asm_id {
            return Some(j);
        }
        j = j + 1;
    }
    proof {
        if asm_ids(e@).contains(asm_id@) {
            let k = choose|k: int| 0 <= k < asm_ids(e@).len() && asm_ids(e@)[k] == asm_id@;
            assert(asm_ids(e@)[k] != asm_id@);
        }
    }
    None
}

/// The first edge carrying the assumption, and its position there.
fn find_assumption(edges: &Vec<Edge>, asm_id: &String) -> (r: Option<(usize, usize)>)
    ensures
        match r {
            Some((i, j)) => first_holder(edge_views(edges@), asm_id@, i as int)
                && first_at(asm_ids(edges@[i as int]@), asm_id@, j as int),
            None => !in_some_edge(edge_views(edges@), asm_id@),
        },
{
    let mut i: usize = 0;
    while i < edges.len()
        invariant
            i <= edges@.len(),
            forall|k: int| 0 <= k < i ==> !asm_ids(#[trigger] edge_views(edges@)[k]).contains(asm_id@),
        decreases edges@.len() - i,
    {
        match find_asm_in(&edges[i], asm_id) {
            Some(j) => { return Some((i, j)); },
            None => {},
        }
        i = i + 1;
    }
    None
}

/// The edges with edge `i`'s assumptions replaced by `asms`.
fn replace_asms(edges: &Vec<Edge>, i: usize, asms: Vec<Assumption>) -> (r: Vec<Edge>)
    requires i < edges@.len(),
    ensures
        r@.len() == edges@.len(),
        edge_views(r@) == edge_views(edges@).update(i as int, with_asms(edges@[i as int]@, assumption_views(asms@))),
{
    let mut r = clone_edges(edges);
    let mut e = clone_edge(&edges[i]);
    e.assumptions = asms;
    assert(edge_views(r@).len() == edge_views(edges@).len());
    r.set(i, e);
    proof {
        assert(edge_views(r@) =~= edge_views(edges@).update(i as int, with_asms(edges@[i as int]@, assumption_views(asms@))));
        assert(edge_views(r@).len() == r@.len());
    }
    r
}

/// `assume add`: a new valid assumption with the next `ASM` ID at the end
/// of the first edge `link_id`.
pub fn assume_add(tree: &mut Tree, counters: &mut Counters, link_id: &str, text: &str) -> (r: Result<AssumeAddData, OutputError>)
    requires
        old(counters).wf(),
        old(counters).room("ASM"@, 1),
    ensures
        final(counters).wf(),
        r is Err ==> *final(tree) == *old(tree) && final(counters).values@ == old(counters).values@,
        !edge_ids(old(tree).edges@).contains(link_id@)
            ==> err_is(r, "LINK_NOT_FOUND"@, quoted_detail("Edge"@, link_id@, " not found in tree '"@ + old(tree).id@ + "'"@)),
        forall|i: int| first_at(edge_ids(old(tree).edges@), link_id@, i) ==> (r matches Ok(d) && {
            let id = nth_id(old(counters).values@, "ASM"@, 1);
            let e = old(tree)@.edges[i];
            &&& final(counters).values@ == minted(old(counters).values@, "ASM"@, 1)
            &&& final(tree)@ == with_edges(old(tree)@, old(tree)@.edges.update(i,
                    with_asms(e, e.assumptions.push(AssumptionView { id, status: AssumptionStatus::Valid, text: text@ }))))
            &&& d.id@ == id && d.link_id@ == link_id@ && d.tree_id@ == old(tree).id@ && d.text@ == text@
        }),
{
    let i = match find_edge(&tree.edges, link_id) {
        Some(i) => i,
        None => {
            return Err(quoted_error("LINK_NOT_FOUND", "Edge", link_id, cat3(" not found in tree '", tree.id.as_str(), "'").as_str()));
        },
    };
    let id = counters.mint("ASM");
    let mut asms = crate::link::types::clone_assumptions(&tree.edges[i].assumptions);
    let ghost pre = asms@;
    asms.push(Assumption { id: id.clone(), status: AssumptionStatus::Valid, text: owned(text) });
    proof {
        assert(assumption_views(asms@) =~= assumption_views(pre).push(AssumptionView { id: id@, status: AssumptionStatus::Valid, text: text@ }));
    }
    tree.edges = replace_asms(&tree.edges, i, asms);
    Ok(AssumeAddData { id, link_id: owned(link_id), tree_id: tree.id.clone(), text: owned(text) })
}

/// `assume edit`: the first assumption `asm_id` (in edge order) gets the
/// new text.
pub fn assume_edit(tree: &mut Tree, asm_id: &str, new_text: &str) -> (r: Result<AssumeEditData, OutputError>)
    ensures
        r is Err ==> *final(tree) == *old(tree),
        !in_some_edge(old(tree)@.edges, asm_id@)
            ==> err_is(r, "ASSUMPTION_NOT_FOUND"@, quoted_detail("Assumption"@, asm_id@, " not found in tree '"@ + old(tree).id@ + "'"@)),
        forall|i: int, j: int| first_holder(old(tree)@.edges, asm_id@, i) && first_at(asm_ids(old(tree)@.edges[i]), asm_id@, j)
            ==> (r matches Ok(d) && {
                let e = old(tree)@.edges[i];
                &&& final(tree)@ == with_edges(old(tree)@, old(tree)@.edges.update(i,
                        with_asms(e, e.assumptions.update(j, AssumptionView { text: new_text@, ..e.assumptions[j] }))))
                &&& d.id@ == asm_id@ && d.tree_id@ == old(tree).id@ && d.text@ == new_text@
            }),
{
    let key = owned(asm_id);
    let (i, j) = match find_assumption(&tree.edges, &key) {
        Some(p) => p,
        None => {
            return Err(quoted_error("ASSUMPTION_NOT_FOUND", "Assumption", asm_id, cat3(" not found in tree '", tree.id.as_str(), "'").as_str()));
        },
    };
    let mut asms = crate::link::types::clone_assumptions(&tree.edges[i].assumptions);
    let ghost pre = asms@;
    assert(assumption_views(asms@).len() == asms@.len());
    let a = Assumption { id: tree.edges[i].assumptions[j].id.clone(), status: tree.edges[i].assumptions[j].status, text: owned(new_text) };
    asms.set(j, a);
    proof {
        let e = tree@.edges[i as int];
        assert(assumption_views(asms@) =~= e.assumptions.update(j as int, AssumptionView { text: new_text@, ..e.assumptions[j as int] }));
        assert forall|i2: int, j2: int| first_holder(tree@.edges, asm_id@, i2) && first_at(asm_ids(tree@.edges[i2]), asm_id@, j2)
            implies i2 == i && j2 == j by {
            if i2 < i { assert(!asm_ids(tree@.edges[i2]).contains(asm_id@)); }
            if i < i2 { assert(!asm_ids(tree@.edges[i as int]).contains(asm_id@)); }
        }
    }
    tree.edges = replace_asms(&tree.edges, i, asms);
    Ok(AssumeEditData { id: key, tree_id: tree.id.clone(), text: owned(new_text) })
}

/// `assume rm`: the first assumption `asm_id` (in edge order) is removed.
pub fn assume_rm(tree: &mut Tree, asm_id: &str) -> (r: Result<AssumeRmData, OutputError>)
    ensures
        r is Err ==> *final(tree) == *old(tree),
        !in_some_edge(old(tree)@.edges, asm_id@)
            ==> err_is(r, "ASSUMPTION_NOT_FOUND"@, quoted_detail("Assumption"@, asm_id@, " not found in tree '"@ + old(tree).id@ + "'"@)),
        forall|i: int, j: int| first_holder(old(tree)@.edges, asm_id@, i) && first_at(asm_ids(old(tree)@.edges[i]), asm_id@, j)
            ==> (r matches Ok(d) && {
                let e = old(tree)@.edges[i];
                &&& final(tree)@ == with_edges(old(tree)@, old(tree)@.edges.update(i, with_asms(e, e.assumptions.remove(j))))
                &&& d.id@ == asm_id@ && d.tree_id@ == old(tree).id@
            }),
{
    let key = owned(asm_id);
    let (i, j) = match find_assumption(&tree.edges, &key) {
        Some(p) => p,
        None => {
            return Err(quoted_error("ASSUMPTION_NOT_FOUND", "Assumption", asm_id, cat3(" not found in tree '", tree.id.as_str(), "'").as_str()));
        },
    };
    let mut asms = crate::link::types::clone_assumptions(&tree.edges[i].assumptions);
    assert(assumption_views(asms@).len() == asms@.len());
    let ghost pre = asms@;
    asms.remove(j);
    proof {
        assert(assumption_views(asms@) =~= assumption_views(pre).remove(j as int));
        assert forall|i2: int, j2: int| first_holder(tree@.edges, asm_id@, i2) && first_at(asm_ids(tree@.edges[i2]), asm_id@, j2)
            implies i2 == i && j2 == j by {
            if i2 < i { assert(!asm_ids(tree@.edges[i2]).contains(asm_id@)); }
            if i < i2 { assert(!asm_ids(tree@.edges[i as int]).contains(asm_id@)); }
        }
    }
    tree.edges = replace_asms(&tree.edges, i, asms);
    Ok(AssumeRmData { id: key, tree_id: tree.id.clone() })
}

/// The edges after moving the assumption at `(i, j)` to the end of edge `t`.
pub open spec fn moved_edges(edges: Seq<EdgeView>, i: int, j: int, t: int) -> Seq<EdgeView> {
    let e = edges[i];
    let a = e.assumptions[j];
    let e1 = edges.update(i, with_asms(e, e.assumptions.remove(j)));
    e1.update(t, with_asms(e1[t], e1[t].assumptions.push(a)))
}

/// `assume move`: the first assumption `asm_id` (in edge order) leaves its
/// edge for the end of the first edge `to_link_id`.
pub fn assume_move(tree: &mut Tree, asm_id: &str, to_link_id: &str) -> (r: Result<AssumeMoveData, OutputError>)
    ensures
        r is Err ==> *final(tree) == *old(tree),
        !in_some_edge(old(tree)@.edges, asm_id@)
            ==> err_is(r, "ASSUMPTION_NOT_FOUND"@, quoted_detail("Assumption"@, asm_id@, " not found in tree '"@ + old(tree).id@ + "'"@)),
        in_some_edge(old(tree)@.edges, asm_id@) && !edge_ids(old(tree).edges@).contains(to_link_id@)
            ==> err_is(r, "LINK_NOT_FOUND"@, quoted_detail("Target edge"@, to_link_id@, " not found in tree '"@ + old(tree).id@ + "'"@)),
        forall|i: int, j: int, t: int| first_holder(old(tree)@.edges, asm_id@, i) && first_at(asm_ids(old(tree)@.edges[i]), asm_id@, j)
            && first_at(edge_ids(old(tree).edges@), to_link_id@, t)
            ==> (r matches Ok(d) && {
                &&& final(tree)@ == with_edges(old(tree)@, moved_edges(old(tree)@.edges, i, j, t))
                &&& d.id@ == asm_id@ && d.from_link@ == old(tree)@.edges[i].id && d.to_link@ == to_link_id@
                &&& d.tree_id@ == old(tree).id@
            }),
{
    let key = owned(asm_id);
    let (i, j) = match find_assumption(&tree.edges, &key) {
        Some(p) => p,
        None => {
            return Err(quoted_error("ASSUMPTION_NOT_FOUND", "Assumption", asm_id, cat3(" not found in tree '", tree.id.as_str(), "'").as_str()));
        },
    };
    let t = match find_edge(&tree.edges, to_link_id) {
        Some(t) => t,
        None => {
            return Err(quoted_error("LINK_NOT_FOUND", "Target edge", to_link_id, cat3(" not found in tree '", tree.id.as_str(), "'").as_str()));
        },
    };
    let ghost ev = tree@.edges;
    let from_link = tree.edges[i].id.clone();
    let a = clone_assumption(&tree.edges[i].assumptions[j]);
    let mut src = crate::link::types::clone_assumptions(&tree.edges[i].assumptions);
    assert(assumption_views(src@).len() == src@.len());
    let ghost pre_src = src@;
    src.remove(j);
    proof { assert(assumption_views(src@) =~= assumption_views(pre_src).remove(j as int)); }
    let edges1 = replace_asms(&tree.edges, i, src);
    let mut dst = crate::link::types::clone_assumptions(&edges1[t].assumptions);
    let ghost pre_dst = dst@;
    dst.push(a);
    proof { assert(assumption_views(dst@) =~= assumption_views(pre_dst).push(ev[i as int].assumptions[j as int])); }
    let edges2 = replace_asms(&edges1, t, dst);
    proof {
        assert(edge_views(edges2@) =~= moved_edges(ev, i as int, j as int, t as int));
        assert forall|i2: int, j2: int| first_holder(ev, asm_id@, i2) && first_at(asm_ids(ev[i2]), asm_id@, j2)
            implies i2 == i && j2 == j by {
            if i2 < i { assert(!asm_ids(ev[i2]).contains(asm_id@)); }
            if i < i2 { assert(!asm_ids(ev[i as int]).contains(asm_id@)); }
        }
        assert forall|t2: int| first_at(edge_ids(tree.edges@), to_link_id@, t2) implies t2 == t by {
            if t2 < t { assert(edge_ids(tree.edges@)[t2] != to_link_id@); }
            if t < t2 { assert(edge_ids(tree.edges@)[t as int] != to_link_id@); }
        }
    }
    tree.edges = edges2;
    Ok(AssumeMoveData { id: key, from_link, to_link: owned(to_link_id), tree_id: tree.id.clone() })
}

} // verus!

verus! {

/// The edge broken and its assumption `j` invalid.
pub open spec fn invalidated(e: EdgeView, j: int) -> EdgeView {
    EdgeView {
        status: EdgeStatus::Broken,
        assumptions: e.assumptions.update(j, AssumptionView { status: AssumptionStatus::Invalid, ..e.assumptions[j] }),
        ..e
    }
}

/// The assumption is already invalid and its edge already broken.
pub open spec fn already_invalid(e: EdgeView, j: int) -> bool {
    e.assumptions[j].status == AssumptionStatus::Invalid && e.status == EdgeStatus::Broken
}

/// The injection node made by `invalidate`.
pub open spec fn injection_node(id: Seq<char>, label: Seq<char>) -> NodeView {
    NodeView {
        id, node_type: NodeType::Inj, label, tags: Seq::empty(), observable: true,
        epistemic: EpistemicStatus::Hypothesis, status: NodeStatus::Active, extra: Seq::empty(),
    }
}

/// The warnings of an invalidation that repairs an inconsistent state.
pub open spec fn repair_warnings(w: Seq<OutputWarning>, e: EdgeView, j: int, link_id: Seq<char>, asm_id: Seq<char>) -> bool {
    let inv = e.assumptions[j].status == AssumptionStatus::Invalid;
    let broken = e.status == EdgeStatus::Broken;
    &&& inv && !broken ==> w.len() == 1 && w[0].code@ == "STATE_REPAIRED"@
            && w[0].detail@ == "Assumption '"@ + asm_id + "' was invalid but edge '"@ + link_id + "' was not broken \u{2014} repaired"@
    &&& !inv && broken ==> w.len() == 1 && w[0].code@ == "STATE_REPAIRED"@
            && w[0].detail@ == "Edge '"@ + link_id + "' was broken but assumption '"@ + asm_id + "' was not invalid \u{2014} repaired"@
    &&& !inv && !broken ==> w.len() == 0
}

/// `invalidate` changes something: the first edge `link_id` has the
/// assumption `asm_id`, and they are not both invalid already.
pub open spec fn invalidation_changes(t: Tree, link_id: Seq<char>, asm_id: Seq<char>) -> bool {
    exists|i: int, j: int| #[trigger] first_at(edge_ids(t.edges@), link_id, i)
        && #[trigger] first_at(asm_ids(t@.edges[i]), asm_id, j) && !already_invalid(t@.edges[i], j)
}

/// `invalidate`: marks assumption `asm_id` of the first edge `link_id`
/// invalid and the edge broken, and makes an `INJ` node (for the pool,
/// not attached) when a label is given. When both were already so, nothing
/// changes and `ALREADY_INVALIDATED` is warned; a half-done state is
/// repaired with a `STATE_REPAIRED` warning.
pub fn invalidate(tree: &mut Tree, counters: &mut Counters, link_id: &str, asm_id: &str, injection_label: Option<&str>)
    -> (r: Result<(InvalidateData, Option<Node>, Vec<OutputWarning>), OutputError>)
    requires
        old(counters).wf(),
        injection_label is Some && invalidation_changes(*old(tree), link_id@, asm_id@) ==> old(counters).room("INJ"@, 1),
    ensures
        final(counters).wf(),
        r is Err ==> *final(tree) == *old(tree) && final(counters).values@ == old(counters).values@,
        !edge_ids(old(tree).edges@).contains(link_id@)
            ==> err_is(r, "LINK_NOT_FOUND"@, quoted_detail("Edge"@, link_id@, " not found in tree '"@ + old(tree).id@ + "'"@)),
        forall|i: int| first_at(edge_ids(old(tree).edges@), link_id@, i) ==> {
            let e = old(tree)@.edges[i];
            &&& !asm_ids(e).contains(asm_id@)
                ==> err_is(r, "ASSUMPTION_NOT_IN_LINK"@, quoted_detail("Assumption"@, asm_id@, " not found in edge '"@ + link_id@ + "'"@))
            &&& forall|j: int| first_at(asm_ids(e), asm_id@, j) ==> (r matches Ok((d, n, w)) && {
                &&& d.asm_id@ == asm_id@ && d.link_id@ == link_id@ && d.link_status == EdgeStatus::Broken
                &&& already_invalid(e, j) ==> {
                    &&& *final(tree) == *old(tree) && final(counters).values@ == old(counters).values@
                    &&& !d.changed && d.injection_id is None && n is None
                    &&& w.len() == 1 && w[0].code@ == "ALREADY_INVALIDATED"@
                    &&& w[0].detail@ == "Assumption '"@ + asm_id@ + "' is already invalid and edge '"@ + link_id@ + "' is already broken"@
                }
                &&& !already_invalid(e, j) ==> {
                    &&& final(tree)@ == with_edges(old(tree)@, old(tree)@.edges.update(i, invalidated(e, j)))
                    &&& d.changed
                    &&& repair_warnings(w@, e, j, link_id@, asm_id@)
                    &&& match injection_label {
                        Some(l) => {
                            let id = nth_id(old(counters).values@, "INJ"@, 1);
                            &&& final(counters).values@ == minted(old(counters).values@, "INJ"@, 1)
                            &&& n matches Some(node) && node@ == injection_node(id, l@)
                            &&& d.injection_id matches Some(x) && x@ == id
                        },
                        None => final(counters).values@ == old(counters).values@ && n is None && d.injection_id is None,
                    }
                }
            })
        },
{
    let i = match find_edge(&tree.edges, link_id) {
        Some(i) => i,
        None => {
            return Err(quoted_error("LINK_NOT_FOUND", "Edge", link_id, cat3(" not found in tree '", tree.id.as_str(), "'").as_str()));
        },
    };
    let key = owned(asm_id);
    let j = match find_asm_in(&tree.edges[i], &key) {
        Some(j) => j,
        None => {
            return Err(quoted_error("ASSUMPTION_NOT_IN_LINK", "Assumption", asm_id, cat3(" not found in edge '", link_id, "'").as_str()));
        },
    };
    let ghost e = tree@.edges[i as int];
    proof {
        assert forall|j2: int| first_at(asm_ids(e), asm_id@, j2) implies j2 == j by {
            if j2 < j { assert(asm_ids(e)[j2] != asm_id@); }
            if j < j2 { assert(asm_ids(e)[j as int] != asm_id@); }
        }
    }
    let inv = tree.edges[i].assumptions[j].status == AssumptionStatus::Invalid;
    let broken = tree.edges[i].status == EdgeStatus::Broken;
    if inv && broken {
        let mut w: Vec<OutputWarning> = Vec::new();
        w.push(OutputWarning::new("ALREADY_INVALIDATED",
            cat5("Assumption '", asm_id, "' is already invalid and edge '", link_id, "' is already broken")));
        return Ok((InvalidateData { asm_id: key, link_id: owned(link_id), link_status: EdgeStatus::Broken, injection_id: None, changed: false }, None, w));
    }
    let mut warnings: Vec<OutputWarning> = Vec::new();
    if inv && !broken {
        warnings.push(OutputWarning::new("STATE_REPAIRED",
            cat5("Assumption '", asm_id, "' was invalid but edge '", link_id, "' was not broken \u{2014} repaired")));
    } else if !inv && broken {
        warnings.push(OutputWarning::new("STATE_REPAIRED",
            cat5("Edge '", link_id, "' was broken but assumption '", asm_id, "' was not invalid \u{2014} repaired")));
    }
    let mut ed = clone_edge(&tree.edges[i]);
    let mut asms = crate::link::types::clone_assumptions(&tree.edges[i].assumptions);
    assert(assumption_views(asms@).len() == asms@.len());
    let a = Assumption { id: tree.edges[i].assumptions[j].id.clone(), status: AssumptionStatus::Invalid, text: tree.edges[i].assumptions[j].text.clone() };
    asms.set(j, a);
    ed.assumptions = asms;
    ed.status = EdgeStatus::Broken;
    proof {
        assert(assumption_views(ed.assumptions@) =~= invalidated(e, j as int).assumptions);
        assert(ed@ == invalidated(e, j as int));
    }
    let mut edges = clone_edges(&tree.edges);
    assert(edge_views(edges@).len() == edge_views(tree.edges@).len());
    edges.set(i, ed);
    proof { assert(edge_views(edges@) =~= tree@.edges.update(i as int, invalidated(e, j as int))); }
    proof {
        assert(!already_invalid(e, j as int));
        assert(invalidation_changes(*tree, link_id@, asm_id@));
    }
    let (inj_id, node) = match injection_label {
        Some(l) => {
            let id = counters.mint("INJ");
            let n = new_node(id.clone(), NodeType::Inj, owned(l), Vec::new(), true, EpistemicStatus::Hypothesis);
            proof {
                assert(n@.tags =~= Seq::<Seq<char>>::empty());
                assert(n@.extra =~= Seq::<(Seq<char>, Seq<char>)>::empty());
                assert(n@ == injection_node(id@, l@));
            }
            (Some(id), Some(n))
        },
        None => (None, None),
    };
    tree.edges = edges;
    Ok((InvalidateData { asm_id: key, link_id: owned(link_id), link_status: EdgeStatus::Broken, injection_id: inj_id, changed: true }, node, warnings))
}

/// An entry of `assume list` as a value.
pub struct AssumeListEntryView {
    pub id: Seq<char>,
    pub text: Seq<char>,
    pub status: AssumptionStatus,
    pub link_id: Seq<char>,
}

impl View for AssumeListEntry {
    type V = AssumeListEntryView;

    open spec fn view(&self) -> AssumeListEntryView {
        AssumeListEntryView { id: self.id@, text: self.text@, status: self.status, link_id: self.link_id@ }
    }
}

/// Every assumption of the edges, in order, with its edge, passing the
/// status filter.
pub open spec fn listed(edges: Seq<EdgeView>, filter: Option<AssumptionStatus>) -> Seq<AssumeListEntryView>
    decreases edges.len(),
{
    if edges.len() == 0 {
        Seq::empty()
    } else {
        let e = edges.last();
        listed(edges.drop_last(), filter) + filter_seq(e.assumptions, status_selector(filter))
            .map_values(|a: AssumptionView| AssumeListEntryView { id: a.id, text: a.text, status: a.status, link_id: e.id })
    }
}

pub open spec fn status_selector(filter: Option<AssumptionStatus>) -> spec_fn(AssumptionView) -> bool {
    |a: AssumptionView| match filter { Some(f) => a.status == f, None => true }
}

pub open spec fn entry_views(v: Seq<AssumeListEntry>) -> Seq<AssumeListEntryView> {
    v.map_values(|x: AssumeListEntry| x@)
}

/// `assume list`: every assumption of the tree with its edge, in order,
/// with the given status when the filter names one (an unknown name does
/// not filter).
pub fn assume_list(tree: &Tree, status_filter: Option<&str>) -> (r: AssumeListData)
    ensures
        r.tree_id@ == tree.id@,
        entry_views(r.assumptions@) == listed(tree@.edges, match status_filter {
            Some(s) => assumption_status_named(spec_to_lowercase(s@)),
            None => None,
        }),
{
    let filter = match status_filter {
        Some(s) => parse_assumption_status(s),
        None => None,
    };
    let mut out: Vec<AssumeListEntry> = Vec::new();
    let mut i: usize = 0;
    while i < tree.edges.len()
        invariant
            i <= tree.edges@.len(),
            entry_views(out@) == listed(tree@.edges.take(i as int), filter),
        decreases tree.edges@.len() - i,
    {
        let e = &tree.edges[i];
        let ghost base = out@;
        let ghost ev = e@;
        let ghost mk = |a: AssumptionView| AssumeListEntryView { id: a.id, text: a.text, status: a.status, link_id: ev.id };
        let mut j: usize = 0;
        while j < e.assumptions.len()
            invariant
                j <= e.assumptions@.len(),
                ev == e@,
                mk == (|a: AssumptionView| AssumeListEntryView { id: a.id, text: a.text, status: a.status, link_id: ev.id }),
                entry_views(out@) == entry_views(base) + filter_seq(ev.assumptions.take(j as int), status_selector(filter)).map_values(mk),
            decreases e.assumptions@.len() - j,
        {
            proof { lemma_filter_step(ev.assumptions, status_selector(filter), j as int); }
            let a = &e.assumptions[j];
            let keep = match filter { Some(f) => a.status == f, None => true };
            let ghost pre = out@;
            if keep {
                out.push(AssumeListEntry { id: a.id.clone(), text: a.text.clone(), status: a.status, link_id: e.id.clone() });
                proof {
                    assert(entry_views(out@) =~= entry_views(pre).push(mk(a@)));
                    assert(filter_seq(ev.assumptions.take(j + 1), status_selector(filter)).map_values(mk)
                        =~= filter_seq(ev.assumptions.take(j as int), status_selector(filter)).map_values(mk).push(mk(a@)));
                }
            }
            j = j + 1;
        }
        proof {
            lemma_take_all(ev.assumptions);
            assert(tree@.edges.take(i + 1).drop_last() =~= tree@.edges.take(i as int));
            assert(tree@.edges.take(i + 1).last() == ev);
        }
        i = i + 1;
    }
    proof { lemma_take_all(tree@.edges); }
    AssumeListData { tree_id: tree.id.clone(), assumptions: out }
}

} // verus!

verus! {

/// Invalidating twice is invalidating once: after an invalidation the same
/// edge and assumption are found again, both already invalid, so a second
/// `invalidate` (with or without an injection label) changes nothing, needs
/// no room for an ID, and reports `ALREADY_INVALIDATED`.
pub proof fn law_invalidate_idempotent(before: Tree, after: Tree, link_id: Seq<char>, asm_id: Seq<char>, i: int, j: int)
    requires
        first_at(edge_ids(before.edges@), link_id, i),
        first_at(asm_ids(before@.edges[i]), asm_id, j),
        after@ == with_edges(before@, before@.edges.update(i, invalidated(before@.edges[i], j))),
    ensures
        first_at(edge_ids(after.edges@), link_id, i),
        first_at(asm_ids(after@.edges[i]), asm_id, j),
        already_invalid(after@.edges[i], j),
        !invalidation_changes(after, link_id, asm_id),
{
    assert(edge_views(after.edges@) == after@.edges);
    assert forall|k: int| 0 <= k < after.edges@.len() implies #[trigger] edge_ids(after.edges@)[k] == edge_ids(before.edges@)[k] by {
        assert(edge_ids(after.edges@)[k] == after@.edges[k].id);
        assert(edge_ids(before.edges@)[k] == before@.edges[k].id);
    }
    let e = before@.edges[i];
    assert forall|k: int| 0 <= k < asm_ids(after@.edges[i]).len() implies #[trigger] asm_ids(after@.edges[i])[k] == asm_ids(e)[k] by {}
    assert forall|i2: int, j2: int| #[trigger] first_at(edge_ids(after.edges@), link_id, i2)
        && #[trigger] first_at(asm_ids(after@.edges[i2]), asm_id, j2) implies already_invalid(after@.edges[i2], j2) by {
        if i2 < i { assert(edge_ids(after.edges@)[i2] != link_id); }
        if i < i2 { assert(edge_ids(after.edges@)[i] != link_id); }
        if j2 < j { assert(asm_ids(after@.edges[i])[j2] != asm_id); }
        if j < j2 { assert(asm_ids(after@.edges[i])[j] != asm_id); }
    }
}

/// All the assumptions of the edges, as a multiset.
pub open spec fn all_asms(edges: Seq<EdgeView>) -> Multiset<AssumptionView>
    decreases edges.len(),
{
    if edges.len() == 0 {
        Multiset::empty()
    } else {
        all_asms(edges.drop_last()).add(edges.last().assumptions.to_multiset())
    }
}

proof fn lemma_all_asms_update(edges: Seq<EdgeView>, i: int, x: EdgeView)
    requires 0 <= i < edges.len(),
    ensures
        all_asms(edges.update(i, x)).add(edges[i].assumptions.to_multiset())
            =~= all_asms(edges).add(x.assumptions.to_multiset()),
    decreases edges.len(),
{
    let u = edges.update(i, x);
    let lhs = all_asms(u).add(edges[i].assumptions.to_multiset());
    let rhs = all_asms(edges).add(x.assumptions.to_multiset());
    if i == edges.len() - 1 {
        assert(u.drop_last() =~= edges.drop_last());
        assert(u.last() == x);
        assert forall|v: AssumptionView| lhs.count(v) == rhs.count(v) by {}
    } else {
        lemma_all_asms_update(edges.drop_last(), i, x);
        assert(u.drop_last() =~= edges.drop_last().update(i, x));
        assert(u.last() == edges.last());
        let ih_l = all_asms(edges.drop_last().update(i, x)).add(edges[i].assumptions.to_multiset());
        let ih_r = all_asms(edges.drop_last()).add(x.assumptions.to_multiset());
        assert forall|v: AssumptionView| lhs.count(v) == rhs.count(v) by {
            assert(ih_l.count(v) == ih_r.count(v));
        }
    }
}

/// Moving an assumption keeps the tree's assumptions: the multiset of all
/// assumptions is the same before and after.
pub proof fn law_move_keeps_assumptions(edges: Seq<EdgeView>, i: int, j: int, t: int)
    requires
        0 <= i < edges.len(),
        0 <= j < edges[i].assumptions.len(),
        0 <= t < edges.len(),
    ensures all_asms(moved_edges(edges, i, j, t)) == all_asms(edges),
{
    broadcast use vstd::seq_lib::group_to_multiset_ensures;
    let e = edges[i];
    let a = e.assumptions[j];
    let x1 = with_asms(e, e.assumptions.remove(j));
    let e1 = edges.update(i, x1);
    let x2 = with_asms(e1[t], e1[t].assumptions.push(a));
    let e2 = e1.update(t, x2);
    lemma_all_asms_update(edges, i, x1);
    lemma_all_asms_update(e1, t, x2);
    assert(e.assumptions.to_multiset().count(a) > 0) by {
        assert(e.assumptions.contains(a));
    }
    assert(e.assumptions.remove(j).to_multiset() =~= e.assumptions.to_multiset().remove(a));
    assert(e1[t].assumptions.push(a).to_multiset() =~= e1[t].assumptions.to_multiset().insert(a));
    assert(all_asms(e2) =~= all_asms(edges)) by {
        assert forall|v: AssumptionView| all_asms(e2).count(v) == all_asms(edges).count(v) by {
            assert(all_asms(e2).add(e1[t].assumptions.to_multiset()).count(v)
                == all_asms(e1).add(x2.assumptions.to_multiset()).count(v));
            assert(all_asms(e1).add(e.assumptions.to_multiset()).count(v)
                == all_asms(edges).add(x1.assumptions.to_multiset()).count(v));
        }
    }
}

} // verus!
