//! Trees: views over the global node pool with their own edges.
use vstd::prelude::*;
use crate::link::types::{
    edge_views, feedback_views, opt_view, AssumptionStatus, Edge, EdgeView, FeedbackEdge,
    FeedbackEdgeView,
};
use crate::strutil::views;

verus! {

#[derive(Debug, Clone, Copy, PartialEq, Eq, Structural)]
pub enum TreeType {
    Gt,
    Crt,
    Ec,
    Frt,
    Prt,
    Tt,
}

#[derive(Debug, Clone, Copy, PartialEq, Eq, Structural)]
pub enum TreeLogic {
    Sufficiency,
    Necessity,
}

/// A node attached to a tree, with its optional role there.
#[derive(Debug, Clone)]
pub struct NodeRef {
    pub node_ref: String,
    pub role: Option<String>,
}

pub struct NodeRefView {
    pub node_ref: Seq<char>,
    pub role: Option<Seq<char>>,
}

impl View for NodeRef {
    type V = NodeRefView;

    open spec fn view(&self) -> NodeRefView {
        NodeRefView { node_ref: self.node_ref@, role: opt_view(self.role) }
    }
}

pub open spec fn noderef_views(v: Seq<NodeRef>) -> Seq<NodeRefView> {
    v.map_values(|n: NodeRef| n@)
}

/// Summary assumption hanging from a long arrow (`MacroEdge`). Its
/// `projection_refs` map it to interior `LINK-xxx` / `ASM-xxx` elements.
#[derive(Debug, Clone)]
pub struct MacroAssumption {
    pub id: String,
    pub status: AssumptionStatus,
    pub text: String,
    pub projection_refs: Vec<String>,
}

pub struct MacroAssumptionView {
    pub id: Seq<char>,
    pub status: AssumptionStatus,
    pub text: Seq<char>,
    pub projection_refs: Seq<Seq<char>>,
}

impl View for MacroAssumption {
    type V = MacroAssumptionView;

    open spec fn view(&self) -> MacroAssumptionView {
        MacroAssumptionView {
            id: self.id@,
            status: self.status,
            text: self.text@,
            projection_refs: views(self.projection_refs@),
        }
    }
}

/// Long arrow: summarises a collapsed cause-effect chain, coexisting with
/// its interior chain.
#[derive(Debug, Clone)]
pub struct MacroEdge {
    pub id: String,
    pub from: String,
    pub to: String,
    pub label: String,
    pub interior_nodes: Vec<String>,
    pub interior_links: Vec<String>,
    pub status: String,
    pub assumptions: Vec<MacroAssumption>,
}

pub struct MacroEdgeView {
    pub id: Seq<char>,
    pub from: Seq<char>,
    pub to: Seq<char>,
    pub label: Seq<char>,
    pub interior_nodes: Seq<Seq<char>>,
    pub interior_links: Seq<Seq<char>>,
    pub status: Seq<char>,
    pub assumptions: Seq<MacroAssumptionView>,
}

impl View for MacroEdge {
    type V = MacroEdgeView;

    open spec fn view(&self) -> MacroEdgeView {
        MacroEdgeView {
            id: self.id@,
            from: self.from@,
            to: self.to@,
            label: self.label@,
            interior_nodes: views(self.interior_nodes@),
            interior_links: views(self.interior_links@),
            status: self.status@,
            assumptions: self.assumptions@.map_values(|a: MacroAssumption| a@),
        }
    }
}

pub open spec fn macro_views(v: Seq<MacroEdge>) -> Seq<MacroEdgeView> {
    v.map_values(|m: MacroEdge| m@)
}

/// A Negative Branch Reservation: a side branch of edges from a source node.
#[derive(Debug, Clone)]
pub struct NbrBranch {
    pub id: String,
    pub source_node: String,
    pub edges: Vec<Edge>,
    pub trim_injection: Option<String>,
}

pub struct NbrBranchView {
    pub id: Seq<char>,
    pub source_node: Seq<char>,
    pub edges: Seq<EdgeView>,
    pub trim_injection: Option<Seq<char>>,
}

impl View for NbrBranch {
    type V = NbrBranchView;

    open spec fn view(&self) -> NbrBranchView {
        NbrBranchView {
            id: self.id@,
            source_node: self.source_node@,
            edges: edge_views(self.edges@),
            trim_injection: opt_view(self.trim_injection),
        }
    }
}

pub open spec fn nbr_views(v: Seq<NbrBranch>) -> Seq<NbrBranchView> {
    v.map_values(|b: NbrBranch| b@)
}

#[derive(Debug, Clone)]
pub struct Tree {
    pub id: String,
    pub name: String,
    pub tree_type: TreeType,
    pub logic: TreeLogic,
    pub nodes: Vec<NodeRef>,
    pub edges: Vec<Edge>,
    pub macro_edges: Vec<MacroEdge>,
    pub feedback_edges: Vec<FeedbackEdge>,
    pub nbr_branches: Vec<NbrBranch>,
}

pub struct TreeView {
    pub id: Seq<char>,
    pub name: Seq<char>,
    pub tree_type: TreeType,
    pub logic: TreeLogic,
    pub nodes: Seq<NodeRefView>,
    pub edges: Seq<EdgeView>,
    pub macro_edges: Seq<MacroEdgeView>,
    pub feedback_edges: Seq<FeedbackEdgeView>,
    pub nbr_branches: Seq<NbrBranchView>,
}

impl View for Tree {
    type V = TreeView;

    open spec fn view(&self) -> TreeView {
        TreeView {
            id: self.id@,
            name: self.name@,
            tree_type: self.tree_type,
            logic: self.logic,
            nodes: noderef_views(self.nodes@),
            edges: edge_views(self.edges@),
            macro_edges: macro_views(self.macro_edges@),
            feedback_edges: feedback_views(self.feedback_edges@),
            nbr_branches: nbr_views(self.nbr_branches@),
        }
    }
}

/// A copy of a node reference.
pub fn clone_noderef(n: &NodeRef) -> (r: NodeRef)
    ensures r@ == n@,
{
    NodeRef { node_ref: n.node_ref.clone(), role: crate::strutil::clone_opt_string(&n.role) }
}

pub open spec fn tree_views(v: Seq<Tree>) -> Seq<TreeView> {
    v.map_values(|t: Tree| t@)
}

/// The tree with its nodes, edges and long arrows replaced.
pub open spec fn reshaped(t: TreeView, nodes: Seq<NodeRefView>, edges: Seq<EdgeView>, macro_edges: Seq<MacroEdgeView>) -> TreeView {
    TreeView {
        id: t.id,
        name: t.name,
        tree_type: t.tree_type,
        logic: t.logic,
        nodes,
        edges,
        macro_edges,
        feedback_edges: t.feedback_edges,
        nbr_branches: t.nbr_branches,
    }
}

/// Whether a node (by id) is attached to a tree.
pub open spec fn attached(nodes: Seq<NodeRef>, id: Seq<char>) -> bool {
    exists|i: int| 0 <= i < nodes.len() && #[trigger] nodes[i].node_ref@ == id
}

/// Whether `id` is attached to the tree's node list.
pub fn is_attached(nodes: &Vec<NodeRef>, id: &String) -> (r: bool)
    ensures r == attached(nodes@, id@),
{
    let mut i: usize = 0;
    while i < nodes.len()
        invariant
            i <= nodes.len(),
            forall|k: int| 0 <= k < i ==> nodes@[k].node_ref@ != id@,
        decreases nodes.len() - i,
    {
        if nodes[i].node_ref == *id {
            return true;
        }
        i = i + 1;
    }
    false
}

/// Lifecycle state of a long arrow: an overlay summarises an existing
/// chain; a reservation declares a jump whose interior is not yet written.
#[derive(Debug, Clone, Copy, PartialEq, Eq, Structural)]
pub enum MacroEdgeStatus {
    Overlay,
    Reservation,
}

/// The state named by a macro edge's status text: `reservation` is a
/// reservation, anything else an overlay.
pub open spec fn macro_status_of(s: Seq<char>) -> MacroEdgeStatus {
    if s == "reservation"@ { MacroEdgeStatus::Reservation } else { MacroEdgeStatus::Overlay }
}

/// The lifecycle state of a macro edge.
pub fn macro_edge_status(me: &MacroEdge) -> (r: MacroEdgeStatus)
    ensures r == macro_status_of(me.status@),
{
    if me.status == crate::strutil::owned("reservation") { MacroEdgeStatus::Reservation } else { MacroEdgeStatus::Overlay }
}

} // verus!
