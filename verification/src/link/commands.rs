//! Link commands: connect, disconnect, feedback.
use vstd::prelude::*;
use crate::errors::{ltp_message, LtpError};
use crate::link::types::{
    edge_ids, edge_views, feedback_views, opt_view, plain_edge, Edge, EdgeStatus, EdgeView, FeedbackEdge,
    FeedbackEdgeView, FeedbackLoopType, Logic, Operator,
};
use crate::output::{err_is, not_in_tree_detail, not_in_tree_error, quoted_detail, quoted_error, OutputError, OutputWarning};
use crate::strutil::{
    ascii_lower, ascii_upper, cat2, cat3, clone_opt_string, clone_strings, contains_string, filter_seq, has_id, lemma_filter_step,
    is_ascii_seq, lemma_has_id_views, lemma_take_all, owned, spec_to_lowercase, spec_to_uppercase, to_lowercase, to_uppercase, views,
};
use crate::tree::types::{attached, is_attached, Tree, TreeView};
use crate::validate::acyclic::{acyclic_v, lemma_acyclic_views};
use crate::validate::dag::check_dag;
use crate::workspace::counters::{lemma_mint_chain, minted, nth_id, Counters};

verus! {

/// The operator named by an upper-case string.
pub open spec fn operator_named(u: Seq<char>) -> Option<Operator> {
    if u == "SINGLE"@ { Some(Operator::Single) }
    else if u == "AND"@ { Some(Operator::And) }
    else if u == "OR"@ { Some(Operator::Or) }
    else if u == "MAG"@ { Some(Operator::Mag) }
    else if u == "XOR"@ { Some(Operator::Xor) }
    else { None }
}

/// The operator named by an already upper-cased string.
pub fn operator_of_upper(u: &str) -> (r: Option<Operator>)
    ensures r == operator_named(u@),
{
    let u = owned(u);
    if u == owned("SINGLE") { Some(Operator::Single) }
    else if u == owned("AND") { Some(Operator::And) }
    else if u == owned("OR") { Some(Operator::Or) }
    else if u == owned("MAG") { Some(Operator::Mag) }
    else if u == owned("XOR") { Some(Operator::Xor) }
    else { None }
}

/// Parse an operator name (case-insensitive): the name is upper-cased and
/// looked up by `operator_of_upper`.
pub fn parse_operator(s: &str) -> (r: Option<Operator>)
    ensures
        r == operator_named(spec_to_uppercase(s@)),
        is_ascii_seq(s@) ==> r == operator_named(ascii_upper(s@)),
{
    let u = to_uppercase(s);
    operator_of_upper(u.as_str())
}

/// The feedback loop type named by a lower-case string.
pub open spec fn feedback_type_named(l: Seq<char>) -> Option<FeedbackLoopType> {
    if l == "positive"@ { Some(FeedbackLoopType::Positive) }
    else if l == "negative"@ { Some(FeedbackLoopType::Negative) }
    else { None }
}

/// Parse a feedback loop type (case-insensitive).
pub fn parse_feedback_type(s: &str) -> (r: Option<FeedbackLoopType>)
    ensures
        r == feedback_type_named(spec_to_lowercase(s@)),
        is_ascii_seq(s@) ==> (r == feedback_type_named(ascii_lower(s@))),
{
    let l = to_lowercase(s);
    if l == owned("positive") { Some(FeedbackLoopType::Positive) }
    else if l == owned("negative") { Some(FeedbackLoopType::Negative) }
    else { None }
}

/// Data returned by `link connect`.
#[derive(Debug, Clone)]
pub struct LinkConnectData {
    pub created_links: Vec<String>,
    pub tree_id: String,
}

/// Data returned by `link disconnect`.
#[derive(Debug, Clone)]
pub struct LinkDisconnectData {
    pub removed_links: Vec<String>,
    pub tree_id: String,
}

/// Data returned by `link feedback`.
#[derive(Debug, Clone)]
pub struct LinkFeedbackData {
    pub id: String,
    pub tree_id: String,
    pub from: String,
    pub to: String,
    pub loop_type: FeedbackLoopType,
}

/// An end of a new link is usable: in the pool and attached to the tree.
pub open spec fn end_ok(t: Tree, pool: Seq<String>, x: Seq<char>) -> bool {
    has_id(pool, x) && attached(t.nodes@, x)
}

/// `k` is the first unusable end.
pub open spec fn first_bad_end(t: Tree, pool: Seq<String>, ends: Seq<Seq<char>>, k: int) -> bool {
    &&& 0 <= k < ends.len()
    &&& !end_ok(t, pool, ends[k])
    &&& forall|q: int| 0 <= q < k ==> end_ok(t, pool, #[trigger] ends[q])
}

/// The error for the first unusable end.
pub open spec fn bad_end_error<T>(r: Result<T, OutputError>, t: Tree, pool: Seq<String>, x: Seq<char>) -> bool {
    if !has_id(pool, x) {
        err_is(r, "REFERENTIAL_INTEGRITY_VIOLATION"@, quoted_detail("Node"@, x, " not found in pool"@))
    } else {
        err_is(r, "NODE_NOT_IN_TREE"@, not_in_tree_detail(x, t.id@))
    }
}

/// The operator of a new link: the named one, or AND for several causes
/// and SINGLE for one.
pub open spec fn chosen_operator(operator: Option<Seq<char>>, n_from: nat) -> Option<Operator> {
    match operator {
        Some(s) => operator_named(spec_to_uppercase(s)),
        None => Some(if n_from > 1 { Operator::And } else { Operator::Single }),
    }
}

/// The edges `link connect` creates: one SINGLE edge per effect when there
/// are several, else one edge with the operator and weight.
pub open spec fn connect_edges(c0: Map<Seq<char>, u64>, from: Seq<Seq<char>>, to: Seq<Seq<char>>, op: Operator, weight: Option<u64>) -> Seq<EdgeView> {
    if to.len() > 1 {
        Seq::new(to.len(), |k: int| EdgeView {
            id: nth_id(c0, "LINK"@, (k + 1) as nat), from, to: to[k], operator: Operator::Single, weight: None,
            status: EdgeStatus::Active, logic: Logic::Sufficiency, assumptions: Seq::empty(),
        })
    } else {
        seq![EdgeView {
            id: nth_id(c0, "LINK"@, 1), from, to: to[0], operator: op, weight,
            status: EdgeStatus::Active, logic: Logic::Sufficiency, assumptions: Seq::empty(),
        }]
    }
}

/// Number of edges `link connect` creates.
pub open spec fn connect_count(to_len: nat) -> nat {
    if to_len > 1 { to_len } else { 1 }
}

pub open spec fn with_edges(t: TreeView, edges: Seq<EdgeView>) -> TreeView {
    crate::tree::types::reshaped(t, t.nodes, edges, t.macro_edges)
}

/// The first end that is not in the pool or not attached, if any.
fn check_ends(t: &Tree, pool: &Vec<String>, from: &Vec<String>, to: &Vec<String>) -> (r: Result<(), OutputError>)
    ensures
        ({
            let ends = views(from@) + views(to@);
            &&& r is Ok <==> forall|q: int| 0 <= q < ends.len() ==> end_ok(*t, pool@, #[trigger] ends[q])
            &&& forall|k: int| first_bad_end(*t, pool@, ends, k) ==> bad_end_error(r, *t, pool@, ends[k])
        }),
{
    let ghost ends = views(from@) + views(to@);
    let mut all: Vec<String> = clone_strings(from);
    let mut q: usize = 0;
    while q < to.len()
        invariant
            q <= to@.len(),
            views(all@) == views(from@) + views(to@).take(q as int),
        decreases to@.len() - q,
    {
        let ghost pre = all@;
        all.push(to[q].clone());
        proof {
            assert(views(all@) =~= views(pre).push(to@[q as int]@));
            assert(views(from@) + views(to@).take(q + 1) =~= (views(from@) + views(to@).take(q as int)).push(to@[q as int]@));
        }
        q = q + 1;
    }
    assert(views(to@).take(to@.len() as int) =~= views(to@));
    let mut k: usize = 0;
    while k < all.len()
        invariant
            k <= all@.len(),
            views(all@) == ends,
            ends == views(from@) + views(to@),
            forall|q: int| 0 <= q < k ==> end_ok(*t, pool@, #[trigger] ends[q]),
        decreases all@.len() - k,
    {
        assert(ends[k as int] == all@[k as int]@);
        if !contains_string(pool, &all[k]) {
            proof {
                assert forall|j: int| first_bad_end(*t, pool@, ends, j) implies j == k by {
                    if j > k { assert(end_ok(*t, pool@, ends[k as int])); }
                }
            }
            return Err(quoted_error("REFERENTIAL_INTEGRITY_VIOLATION", "Node", all[k].as_str(), " not found in pool"));
        }
        if !is_attached(&t.nodes, &all[k]) {
            proof {
                assert forall|j: int| first_bad_end(*t, pool@, ends, j) implies j == k by {
                    if j > k { assert(end_ok(*t, pool@, ends[k as int])); }
                }
            }
            return Err(not_in_tree_error(all[k].as_str(), t.id.as_str()));
        }
        k = k + 1;
    }
    Ok(())
}

/// `link connect`: new edges from the causes `from` to the effects `to`
/// (see `connect_edges`), after checking that every end is in the pool and
/// attached (the first that is not is reported) and that a given operator
/// is known. The edges are added only when the tree stays acyclic
/// (`CIRCULAR_DEPENDENCY_DETECTED` otherwise; the IDs are used up either
/// way). A MAG operator without weight is warned about.
pub fn link_connect(tree: &mut Tree, counters: &mut Counters, pool: &Vec<String>, from: &Vec<String>, to: &Vec<String>,
    operator: Option<&str>, weight: Option<u64>) -> (r: Result<(LinkConnectData, Vec<OutputWarning>), OutputError>)
    requires
        old(counters).wf(),
        old(counters).room("LINK"@, connect_count(to@.len())),
        to@.len() >= 1 || !connect_checks_pass(*old(tree), pool@, views(from@) + views(to@),
            chosen_operator(crate::node::commands::opt_str_view(operator), from@.len())),
    ensures
        final(counters).wf(),
        r is Err ==> *final(tree) == *old(tree),
        ({
            let ends = views(from@) + views(to@);
            let c0 = old(counters).values@;
            let op = chosen_operator(crate::node::commands::opt_str_view(operator), from@.len());
            let new_edges = connect_edges(c0, views(from@), views(to@), op_or_single(op), weight);
            &&& forall|k: int| first_bad_end(*old(tree), pool@, ends, k) ==> bad_end_error(r, *old(tree), pool@, ends[k])
            &&& (forall|q: int| 0 <= q < ends.len() ==> end_ok(*old(tree), pool@, #[trigger] ends[q])) && op is None
                ==> err_is(r, "INVALID_OPERATOR"@, "Unknown operator: "@ + str_or_empty(operator))
            &&& !((forall|q: int| 0 <= q < ends.len() ==> end_ok(*old(tree), pool@, #[trigger] ends[q])) && op is Some)
                ==> final(counters).values@ == c0
            &&& (forall|q: int| 0 <= q < ends.len() ==> end_ok(*old(tree), pool@, #[trigger] ends[q])) && op is Some ==> {
                &&& final(counters).values@ == minted(c0, "LINK"@, connect_count(to@.len()))
                &&& !acyclic_v(old(tree)@.edges + new_edges) ==> err_is(r, "CIRCULAR_DEPENDENCY_DETECTED"@,
                        "circular dependency detected in tree "@ + old(tree).id@)
                &&& acyclic_v(old(tree)@.edges + new_edges) ==> (r matches Ok((d, w)) && {
                    &&& final(tree)@ == with_edges(old(tree)@, old(tree)@.edges + new_edges)
                    &&& views(d.created_links@) == new_edges.map_values(|e: EdgeView| e.id)
                    &&& d.tree_id@ == old(tree).id@
                    &&& w@.len() == (if op == Some(Operator::Mag) && weight is None { 1int } else { 0int })
                    &&& w@.len() == 1 ==> w@[0].code@ == "MAG_WEIGHT_MISSING"@
                        && w@[0].detail@ == "Operator MAG without --weight; magnitude estimation pending"@
                })
            }
            &&& r is Ok ==> acyclic_v(final(tree)@.edges)
        }),
{
    check_ends(tree, pool, from, to)?;
    let op = match operator {
        Some(s) => match parse_operator(s) {
            Some(o) => o,
            None => { return Err(OutputError::new("INVALID_OPERATOR", cat2("Unknown operator: ", s))); },
        },
        None => if from.len() > 1 { Operator::And } else { Operator::Single },
    };
    let mut warnings: Vec<OutputWarning> = Vec::new();
    if op == Operator::Mag && weight.is_none() {
        warnings.push(OutputWarning::new("MAG_WEIGHT_MISSING", owned("Operator MAG without --weight; magnitude estimation pending")));
    }
    let ghost c0 = counters.values@;
    let ghost new_edges = connect_edges(c0, views(from@), views(to@), op, weight);
    let mut created: Vec<Edge> = Vec::new();
    if to.len() > 1 {
        let mut k: usize = 0;
        while k < to.len()
            invariant
                k <= to@.len(),
                to@.len() > 1,
                counters.wf(),
                count_of_ok(c0, to@.len()),
                k == 0 ==> counters.values@ == c0,
                k > 0 ==> counters.values@ == minted(c0, "LINK"@, k as nat),
                created@.len() == k,
                new_edges == connect_edges(c0, views(from@), views(to@), op, weight),
                forall|q: int| 0 <= q < k ==> (#[trigger] created@[q])@ == new_edges[q],
            decreases to@.len() - k,
        {
            proof { lemma_mint_chain(c0, "LINK"@, k as nat, 1, 1); }
            let id = counters.mint("LINK");
            proof { lemma_mint_chain(c0, "LINK"@, k as nat, 1, 1); }
            let e = plain_edge(id, clone_strings(from), to[k].clone(), Operator::Single, Logic::Sufficiency);
            created.push(e);
            k = k + 1;
        }
    } else {
        let id = counters.mint("LINK");
        let mut e = plain_edge(id, clone_strings(from), to[0].clone(), op, Logic::Sufficiency);
        e.weight = weight;
        created.push(e);
        proof { assert(minted(c0, "LINK"@, 1) == minted(c0, "LINK"@, connect_count(to@.len()))); }
    }
    proof {
        assert(edge_views(created@) =~= new_edges);
    }
    let mut all = crate::link::types::clone_edges(&tree.edges);
    let ghost pre = all@;
    let mut i: usize = 0;
    while i < created.len()
        invariant
            i <= created@.len(),
            edge_views(all@) == edge_views(pre) + edge_views(created@).take(i as int),
        decreases created@.len() - i,
    {
        let ghost before = all@;
        all.push(crate::link::types::clone_edge(&created[i]));
        proof {
            assert(edge_views(all@) =~= edge_views(before).push(created@[i as int]@));
            assert(edge_views(created@).take(i + 1) =~= edge_views(created@).take(i as int).push(created@[i as int]@));
        }
        i = i + 1;
    }
    proof {
        assert(edge_views(created@).take(created@.len() as int) =~= edge_views(created@));
        lemma_acyclic_views(all@);
    }
    match check_dag(&all, tree.id.as_str()) {
        Ok(()) => {},
        Err(e) => {
            let m = e.message();
            return Err(OutputError::new("CIRCULAR_DEPENDENCY_DETECTED", m));
        },
    }
    let mut ids: Vec<String> = Vec::new();
    let mut j: usize = 0;
    while j < created.len()
        invariant
            j <= created@.len(),
            views(ids@) == edge_views(created@).take(j as int).map_values(|e: EdgeView| e.id),
        decreases created@.len() - j,
    {
        let ghost before = ids@;
        ids.push(created[j].id.clone());
        proof {
            assert(views(ids@) =~= views(before).push(created@[j as int].id@));
            assert(edge_views(created@).take(j + 1).map_values(|e: EdgeView| e.id)
                =~= edge_views(created@).take(j as int).map_values(|e: EdgeView| e.id).push(created@[j as int].id@));
        }
        j = j + 1;
    }
    proof { assert(edge_views(created@).take(created@.len() as int) =~= edge_views(created@)); }
    tree.edges = all;
    Ok((LinkConnectData { created_links: ids, tree_id: tree.id.clone() }, warnings))
}

/// The ends and the operator of `link connect` are all acceptable.
pub open spec fn connect_checks_pass(t: Tree, pool: Seq<String>, ends: Seq<Seq<char>>, op: Option<Operator>) -> bool {
    (forall|q: int| 0 <= q < ends.len() ==> end_ok(t, pool, #[trigger] ends[q])) && op is Some
}

pub open spec fn str_or_empty(o: Option<&str>) -> Seq<char> {
    match o { Some(s) => s@, None => Seq::empty() }
}

pub open spec fn op_or_single(o: Option<Operator>) -> Operator {
    match o { Some(x) => x, None => Operator::Single }
}

/// There is room for `n` more links.
pub open spec fn count_of_ok(c0: Map<Seq<char>, u64>, n: nat) -> bool {
    crate::workspace::counters::count_of(c0, "LINK"@) + n <= u64::MAX
}

} // verus!

verus! {

/// The IDs of `ids`, in order and each once, that name an edge in `present`.
pub open spec fn removed_links(ids: Seq<Seq<char>>, present: Seq<Seq<char>>) -> Seq<Seq<char>>
    decreases ids.len(),
{
    if ids.len() == 0 {
        Seq::empty()
    } else {
        let r = removed_links(ids.drop_last(), present);
        let x = ids.last();
        if present.contains(x) && !ids.drop_last().contains(x) { r.push(x) } else { r }
    }
}

pub open spec fn keep_unlisted(ids: Seq<Seq<char>>) -> spec_fn(EdgeView) -> bool {
    |e: EdgeView| !ids.contains(e.id)
}

/// `link disconnect`: removes every edge whose ID is listed; reports the
/// listed IDs that named an edge, in order, each once.
pub fn link_disconnect(tree: &mut Tree, link_ids: &Vec<String>) -> (r: LinkDisconnectData)
    ensures
        final(tree)@ == with_edges(old(tree)@, filter_seq(old(tree)@.edges, keep_unlisted(views(link_ids@)))),
        views(r.removed_links@) == removed_links(views(link_ids@), old(tree)@.edges.map_values(|e: EdgeView| e.id)),
        r.tree_id@ == old(tree).id@,
{
    let ghost present = tree@.edges.map_values(|e: EdgeView| e.id);
    let mut ids: Vec<String> = Vec::new();
    let mut i: usize = 0;
    while i < tree.edges.len()
        invariant
            i <= tree.edges@.len(),
            present == tree@.edges.map_values(|e: EdgeView| e.id),
            views(ids@) == present.take(i as int),
        decreases tree.edges@.len() - i,
    {
        let ghost pre = ids@;
        ids.push(tree.edges[i].id.clone());
        proof {
            assert(views(ids@) =~= views(pre).push(tree.edges@[i as int].id@));
            assert(present.take(i + 1) =~= present.take(i as int).push(present[i as int]));
        }
        i = i + 1;
    }
    assert(present.take(present.len() as int) =~= present);
    let mut removed: Vec<String> = Vec::new();
    let mut k: usize = 0;
    while k < link_ids.len()
        invariant
            k <= link_ids@.len(),
            views(ids@) == present,
            views(removed@) == removed_links(views(link_ids@).take(k as int), present),
        decreases link_ids@.len() - k,
    {
        let x = &link_ids[k];
        let ghost lv = views(link_ids@);
        proof {
            assert(lv.take(k + 1).drop_last() =~= lv.take(k as int));
            assert(lv.take(k + 1).last() == x@);
            lemma_has_id_views(ids@, x@);
        }
        let present_now = contains_string(&ids, x);
        let mut earlier = false;
        let mut q: usize = 0;
        while q < k
            invariant
                q <= k,
                k < link_ids@.len(),
                *x == link_ids@[k as int],
                earlier == exists|z: int| 0 <= z < q && #[trigger] link_ids@[z]@ == x@,
            decreases k - q,
        {
            if link_ids[q] == *x {
                earlier = true;
            }
            q = q + 1;
        }
        proof {
            if earlier {
                let z = choose|z: int| 0 <= z < k && #[trigger] link_ids@[z]@ == x@;
                assert(lv.take(k as int)[z] == x@);
            }
            if lv.take(k as int).contains(x@) {
                let z = choose|z: int| 0 <= z < lv.take(k as int).len() && lv.take(k as int)[z] == x@;
                assert(link_ids@[z]@ == x@);
            }
        }
        let ghost pre = removed@;
        if present_now && !earlier {
            removed.push(x.clone());
            proof { assert(views(removed@) =~= views(pre).push(x@)); }
        }
        k = k + 1;
    }
    proof { lemma_take_all(views(link_ids@)); }
    let ghost keep = keep_unlisted(views(link_ids@));
    let mut kept: Vec<Edge> = Vec::new();
    let mut j: usize = 0;
    while j < tree.edges.len()
        invariant
            j <= tree.edges@.len(),
            keep == keep_unlisted(views(link_ids@)),
            edge_views(kept@) == filter_seq(edge_views(tree.edges@).take(j as int), keep),
        decreases tree.edges@.len() - j,
    {
        proof {
            lemma_filter_step(edge_views(tree.edges@), keep, j as int);
            lemma_has_id_views(link_ids@, tree.edges@[j as int].id@);
        }
        let ghost pre = kept@;
        if !contains_string(link_ids, &tree.edges[j].id) {
            kept.push(crate::link::types::clone_edge(&tree.edges[j]));
            proof { assert(edge_views(kept@) =~= edge_views(pre).push(tree.edges@[j as int]@)); }
        }
        j = j + 1;
    }
    proof { lemma_take_all(edge_views(tree.edges@)); }
    tree.edges = kept;
    LinkDisconnectData { removed_links: removed, tree_id: tree.id.clone() }
}

/// Checks the loop type of `link feedback` before the workspace is locked.
pub fn validate_feedback_type(loop_type: &str) -> (r: Result<FeedbackLoopType, OutputError>)
    ensures
        match feedback_type_named(spec_to_lowercase(loop_type@)) {
            Some(t) => r matches Ok(x) && x == t,
            None => err_is(r, "INVALID_FEEDBACK_TYPE"@, "Expected 'positive' or 'negative', got '"@ + loop_type@ + "'"@),
        },
{
    match parse_feedback_type(loop_type) {
        Some(t) => Ok(t),
        None => Err(OutputError::new("INVALID_FEEDBACK_TYPE", cat3("Expected 'positive' or 'negative', got '", loop_type, "'"))),
    }
}

/// `link feedback`: adds a feedback edge `from -> to` with the next `FB`
/// ID.
pub fn link_feedback(tree: &mut Tree, counters: &mut Counters, from: &str, to: &str, loop_type: FeedbackLoopType,
    label: Option<&str>) -> (r: LinkFeedbackData)
    requires
        old(counters).wf(),
        old(counters).room("FB"@, 1),
    ensures
        final(counters).wf(),
        final(counters).values@ == minted(old(counters).values@, "FB"@, 1),
        ({
            let id = nth_id(old(counters).values@, "FB"@, 1);
            &&& final(tree)@ == crate::tree::types::TreeView {
                    feedback_edges: old(tree)@.feedback_edges.push(FeedbackEdgeView {
                        id, from: from@, to: to@, loop_type, label: crate::node::commands::opt_str_view(label),
                    }),
                    ..old(tree)@
                }
            &&& r.id@ == id && r.tree_id@ == old(tree).id@ && r.from@ == from@ && r.to@ == to@ && r.loop_type == loop_type
        }),
{
    let id = counters.mint("FB");
    let l = match label { Some(s) => Some(owned(s)), None => None };
    let ghost pre = tree.feedback_edges@;
    tree.feedback_edges.push(FeedbackEdge { id: id.clone(), from: owned(from), to: owned(to), loop_type, label: l });
    proof { assert(feedback_views(tree.feedback_edges@) =~= feedback_views(pre).push(tree.feedback_edges@.last()@)); }
    LinkFeedbackData { id, tree_id: tree.id.clone(), from: owned(from), to: owned(to), loop_type }
}

} // verus!
