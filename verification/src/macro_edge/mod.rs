//! Top-down lifecycle of long arrows: declaring a reservation.
use vstd::prelude::*;
use crate::output::{not_in_tree_detail, not_in_tree_error, ContextValue, ContextValueView, OutputError};
use crate::strutil::{cat3, owned, views};
use crate::tree::types::{attached, is_attached, MacroAssumptionView, MacroEdge, MacroEdgeView, Tree, TreeView};
use crate::workspace::counters::{minted, nth_id, Counters};

verus! {

/// Data returned by `macro add`.
#[derive(Debug, Clone)]
pub struct MacroAddData {
    /// ID of the new reservation (`MACRO-xxx`).
    pub macro_edge_id: String,
    /// Origin node of the declared jump.
    pub from: String,
    /// Target node of the declared jump.
    pub to: String,
    /// Label of the jump.
    pub label: String,
}

/// A white-space character (the Unicode `White_Space` property).
pub open spec fn is_white_space(c: char) -> bool {
    ||| '\u{9}' <= c <= '\u{d}'
    ||| c == ' ' || c == '\u{85}' || c == '\u{a0}' || c == '\u{1680}'
    ||| '\u{2000}' <= c <= '\u{200a}'
    ||| c == '\u{2028}' || c == '\u{2029}' || c == '\u{202f}' || c == '\u{205f}' || c == '\u{3000}'
}

/// The text is empty or white space only.
pub open spec fn is_blank(s: Seq<char>) -> bool {
    forall|i: int| 0 <= i < s.len() ==> is_white_space(#[trigger] s[i])
}

fn white_space(c: char) -> (r: bool)
    ensures r == is_white_space(c),
{
    ('\u{9}' <= c && c <= '\u{d}') || c == ' ' || c == '\u{85}' || c == '\u{a0}' || c == '\u{1680}'
        || ('\u{2000}' <= c && c <= '\u{200a}')
        || c == '\u{2028}' || c == '\u{2029}' || c == '\u{202f}' || c == '\u{205f}' || c == '\u{3000}'
}

/// Whether the text is empty or white space only.
pub fn blank(s: &str) -> (r: bool)
    ensures r == is_blank(s@),
{
    let n = s.unicode_len();
    let mut i: usize = 0;
    while i < n
        invariant
            i <= n,
            n == s@.len(),
            forall|k: int| 0 <= k < i ==> is_white_space(#[trigger] s@[k]),
        decreases n - i,
    {
        if !white_space(s.get_char(i)) {
            return false;
        }
        i = i + 1;
    }
    true
}

/// `Node '<id>' ...` errors carry the node in their context.
pub open spec fn node_ctx_error(r: Result<MacroAddData, OutputError>, code: Seq<char>, detail: Seq<char>, node: Seq<char>) -> bool {
    match r {
        Err(e) => e.code@ == code && e.detail@ == detail
            && crate::output::context_get(e.context@, "node_id"@) == Some(ContextValueView::Str(node)),
        Ok(_) => false,
    }
}

/// The reservation that `macro add` declares.
pub open spec fn reservation(id: Seq<char>, from: Seq<char>, to: Seq<char>, label: Seq<char>) -> MacroEdgeView {
    MacroEdgeView {
        id,
        from,
        to,
        label,
        interior_nodes: Seq::empty(),
        interior_links: Seq::empty(),
        status: "reservation"@,
        assumptions: Seq::<MacroAssumptionView>::empty(),
    }
}

/// `macro add`: declares a reservation, a long arrow `from -> to` with an
/// empty interior, outside the DAG. Refused, before any ID is minted, for a
/// blank label, for a self loop, and for an endpoint not attached to the
/// tree (`from` checked first).
pub fn macro_add(tree: &mut Tree, counters: &mut Counters, from: &str, to: &str, label: &str) -> (r: Result<MacroAddData, OutputError>)
    requires
        old(counters).wf(),
        old(counters).room("MACRO"@, 1),
    ensures
        final(counters).wf(),
        r is Err ==> *final(tree) == *old(tree) && final(counters).values@ == old(counters).values@,
        is_blank(label@) ==> crate::output::err_is(r, "LABEL_REQUIRED"@, "Macro-edge label must not be empty"@),
        !is_blank(label@) && from@ == to@ ==> node_ctx_error(r, "RESERVATION_SELF_LOOP"@,
            "Reservation cannot loop node '"@ + from@ + "' onto itself"@, from@),
        !is_blank(label@) && from@ != to@ && !attached(old(tree).nodes@, from@)
            ==> node_ctx_error(r, "NODE_NOT_IN_TREE"@, not_in_tree_detail(from@, old(tree).id@), from@),
        !is_blank(label@) && from@ != to@ && attached(old(tree).nodes@, from@) && !attached(old(tree).nodes@, to@)
            ==> node_ctx_error(r, "NODE_NOT_IN_TREE"@, not_in_tree_detail(to@, old(tree).id@), to@),
        !is_blank(label@) && from@ != to@ && attached(old(tree).nodes@, from@) && attached(old(tree).nodes@, to@)
            ==> (r matches Ok(d) && {
                let id = nth_id(old(counters).values@, "MACRO"@, 1);
                &&& final(counters).values@ == minted(old(counters).values@, "MACRO"@, 1)
                &&& final(tree)@ == (TreeView {
                        macro_edges: old(tree)@.macro_edges.push(reservation(id, from@, to@, label@)),
                        ..old(tree)@
                    })
                &&& d.macro_edge_id@ == id && d.from@ == from@ && d.to@ == to@ && d.label@ == label@
            }),
{
    if blank(label) {
        return Err(OutputError::new("LABEL_REQUIRED", owned("Macro-edge label must not be empty")));
    }
    let from_s = owned(from);
    let to_s = owned(to);
    if from_s == to_s {
        let e = OutputError::new("RESERVATION_SELF_LOOP", cat3("Reservation cannot loop node '", from, "' onto itself"))
            .with_context("node_id", ContextValue::Str(from_s));
        return Err(e);
    }
    if !is_attached(&tree.nodes, &from_s) {
        return Err(not_in_tree_error(from, tree.id.as_str()).with_context("node_id", ContextValue::Str(from_s)));
    }
    if !is_attached(&tree.nodes, &to_s) {
        return Err(not_in_tree_error(to, tree.id.as_str()).with_context("node_id", ContextValue::Str(to_s)));
    }
    let id = counters.mint("MACRO");
    let m = MacroEdge {
        id: id.clone(),
        from: from_s.clone(),
        to: to_s.clone(),
        label: owned(label),
        interior_nodes: Vec::new(),
        interior_links: Vec::new(),
        status: owned("reservation"),
        assumptions: Vec::new(),
    };
    let ghost pre = tree.macro_edges@;
    tree.macro_edges.push(m);
    proof {
        assert(m@ == reservation(id@, from@, to@, label@)) by {
            assert(m@.interior_nodes =~= Seq::<Seq<char>>::empty());
            assert(m@.interior_links =~= Seq::<Seq<char>>::empty());
            assert(m@.assumptions =~= Seq::<MacroAssumptionView>::empty());
        }
        assert(tree@.macro_edges =~= old(tree)@.macro_edges.push(reservation(id@, from@, to@, label@)));
    }
    Ok(MacroAddData { macro_edge_id: id, from: from_s, to: to_s, label: owned(label) })
}

} // verus!
