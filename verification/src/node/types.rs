//! Nodes of the global pool.
use vstd::prelude::*;
use crate::node::commands::node_type_named;
use crate::strutil::{ascii_upper, clone_strings, is_ascii_seq, views};
use crate::workspace::counters::entity_type_list;

verus! {

/// Epistemic classification of a node within the Logical Thinking Process.
#[derive(Debug, Clone, Copy, PartialEq, Eq, Hash, Structural)]
pub enum EpistemicStatus {
    /// Grounded in verified evidence.
    Fact,
    /// Proposed causal explanation, not yet verified.
    Hypothesis,
    /// Taken as given without direct evidence.
    Assumption,
    /// Logically inferred from other nodes.
    Derived,
}

impl Default for EpistemicStatus {
    fn default() -> (r: Self)
        ensures r == EpistemicStatus::Hypothesis,
    {
        EpistemicStatus::Hypothesis
    }
}

/// The epistemic status a node has when none is recorded.
pub fn default_epistemic() -> (r: EpistemicStatus)
    ensures r == EpistemicStatus::Hypothesis,
{
    EpistemicStatus::Hypothesis
}

/// Whether the status is the default one (it is then omitted from storage).
pub fn is_hypothesis(status: &EpistemicStatus) -> (r: bool)
    ensures r == (*status == EpistemicStatus::Hypothesis),
{
    *status == EpistemicStatus::Hypothesis
}

/// Observability a node has when none is recorded.
pub fn default_observable() -> (r: bool)
    ensures r,
{
    true
}

#[derive(Debug, Clone, Copy, PartialEq, Eq, Hash, Structural)]
pub enum NodeType {
    Ude,
    Rc,
    Inj,
    Nc,
    Goal,
    Obj,
    Want,
    Obs,
    Io,
    Int,
    De,
    Req,
    Pre,
}

/// The ID prefix of each node type.
pub open spec fn spec_prefix(t: NodeType) -> Seq<char> {
    match t {
        NodeType::Ude => "UDE"@,
        NodeType::Rc => "RC"@,
        NodeType::Inj => "INJ"@,
        NodeType::Nc => "NC"@,
        NodeType::Goal => "GOAL"@,
        NodeType::Obj => "OBJ"@,
        NodeType::Want => "WANT"@,
        NodeType::Obs => "OBS"@,
        NodeType::Io => "IO"@,
        NodeType::Int => "INT"@,
        NodeType::De => "DE"@,
        NodeType::Req => "REQ"@,
        NodeType::Pre => "PRE"@,
    }
}

/// A node type's ID prefix names it back: the prefix is upper-case ASCII,
/// so the case-insensitive type parser (`parse_node_type`, whose contract
/// reads ASCII input through `ascii_upper`) gives the same type for it; no
/// two types share a prefix; and every prefix is one of the counter system's
/// entity types, so `Counters::new_zeroed` holds a counter for it.
pub proof fn law_node_type_prefix_round_trip(t: NodeType, t2: NodeType)
    ensures
        is_ascii_seq(spec_prefix(t)),
        ascii_upper(spec_prefix(t)) == spec_prefix(t),
        node_type_named(ascii_upper(spec_prefix(t))) == Some(t),
        t != t2 ==> spec_prefix(t) != spec_prefix(t2),
        entity_type_list().contains(spec_prefix(t)),
{
    lemma_prefix_names(t);
    lemma_prefix_names(t2);
}

/// Per type: the prefix is upper-case ASCII, names the type, and is listed
/// among the entity types.
proof fn lemma_prefix_names(t: NodeType)
    ensures
        is_ascii_seq(spec_prefix(t)),
        ascii_upper(spec_prefix(t)) == spec_prefix(t),
        node_type_named(spec_prefix(t)) == Some(t),
        entity_type_list().contains(spec_prefix(t)),
{
    reveal_strlit("UDE");
    reveal_strlit("RC");
    reveal_strlit("INJ");
    reveal_strlit("NC");
    reveal_strlit("GOAL");
    reveal_strlit("OBJ");
    reveal_strlit("WANT");
    reveal_strlit("OBS");
    reveal_strlit("IO");
    reveal_strlit("INT");
    reveal_strlit("DE");
    reveal_strlit("REQ");
    reveal_strlit("PRE");
    let p = spec_prefix(t);
    assert(ascii_upper(p) =~= p);
    assert("UDE"@[0] == 'U' && "RC"@[0] == 'R' && "INJ"@[0] == 'I' && "NC"@[0] == 'N' && "GOAL"@[0] == 'G');
    assert("OBJ"@[0] == 'O' && "WANT"@[0] == 'W' && "OBS"@[0] == 'O' && "IO"@[0] == 'I' && "INT"@[0] == 'I');
    assert("DE"@[0] == 'D' && "REQ"@[0] == 'R' && "PRE"@[0] == 'P');
    assert("INJ"@[2] == 'J' && "INT"@[2] == 'T' && "OBJ"@[2] == 'J' && "OBS"@[2] == 'S');
    let k: int = match t {
        NodeType::Ude => 0,
        NodeType::Rc => 1,
        NodeType::Inj => 2,
        NodeType::Nc => 3,
        NodeType::Goal => 4,
        NodeType::Obj => 5,
        NodeType::Want => 6,
        NodeType::Obs => 7,
        NodeType::Io => 8,
        NodeType::Int => 9,
        NodeType::De => 10,
        NodeType::Req => 11,
        NodeType::Pre => 12,
    };
    assert(entity_type_list()[k] == p);
}

impl NodeType {
    /// Returns the ID prefix string used for sequential ID generation.
    pub fn prefix(&self) -> (r: &'static str)
        ensures r@ == spec_prefix(*self),
    {
        match self {
            NodeType::Ude => "UDE",
            NodeType::Rc => "RC",
            NodeType::Inj => "INJ",
            NodeType::Nc => "NC",
            NodeType::Goal => "GOAL",
            NodeType::Obj => "OBJ",
            NodeType::Want => "WANT",
            NodeType::Obs => "OBS",
            NodeType::Io => "IO",
            NodeType::Int => "INT",
            NodeType::De => "DE",
            NodeType::Req => "REQ",
            NodeType::Pre => "PRE",
        }
    }
}

#[derive(Debug, Clone, Copy, PartialEq, Eq, Structural)]
pub enum NodeStatus {
    Active,
    Draft,
    Invalidated,
    Superseded,
}

/// Lifecycle metadata of a node. `extra` keeps any further stored keys,
/// each with its value as JSON text, in key order.
#[derive(Debug, Clone)]
pub struct NodeMetadata {
    pub status: NodeStatus,
    pub extra: Vec<(String, String)>,
}

#[derive(Debug, Clone)]
pub struct Node {
    pub id: String,
    pub node_type: NodeType,
    pub label: String,
    pub tags: Vec<String>,
    pub observable: bool,
    pub epistemic: EpistemicStatus,
    pub metadata: NodeMetadata,
}

/// Abstract value of a node.
pub struct NodeView {
    pub id: Seq<char>,
    pub node_type: NodeType,
    pub label: Seq<char>,
    pub tags: Seq<Seq<char>>,
    pub observable: bool,
    pub epistemic: EpistemicStatus,
    pub status: NodeStatus,
    pub extra: Seq<(Seq<char>, Seq<char>)>,
}

impl View for Node {
    type V = NodeView;

    open spec fn view(&self) -> NodeView {
        NodeView {
            id: self.id@,
            node_type: self.node_type,
            label: self.label@,
            tags: views(self.tags@),
            observable: self.observable,
            epistemic: self.epistemic,
            status: self.metadata.status,
            extra: self.metadata.extra@.map_values(|p: (String, String)| (p.0@, p.1@)),
        }
    }
}

/// A copy of a node.
pub fn clone_node(n: &Node) -> (r: Node)
    ensures r@ == n@,
{
    let mut extra: Vec<(String, String)> = Vec::new();
    let mut i: usize = 0;
    while i < n.metadata.extra.len()
        invariant
            i <= n.metadata.extra.len(),
            extra@.len() == i,
            forall|k: int| 0 <= k < i ==> (#[trigger] extra@[k]).0@ == n.metadata.extra@[k].0@
                && extra@[k].1@ == n.metadata.extra@[k].1@,
        decreases n.metadata.extra.len() - i,
    {
        let p = &n.metadata.extra[i];
        extra.push((p.0.clone(), p.1.clone()));
        i = i + 1;
    }
    let r = Node {
        id: n.id.clone(),
        node_type: n.node_type,
        label: n.label.clone(),
        tags: clone_strings(&n.tags),
        observable: n.observable,
        epistemic: n.epistemic,
        metadata: NodeMetadata { status: n.metadata.status, extra },
    };
    assert(r@.extra =~= n@.extra);
    assert(r@.tags =~= n@.tags);
    r
}

/// A new active node with no tags and no extra metadata.
pub fn new_node(id: String, node_type: NodeType, label: String, tags: Vec<String>, observable: bool, epistemic: EpistemicStatus) -> (r: Node)
    ensures
        r.id == id,
        r.node_type == node_type,
        r.label == label,
        r.tags == tags,
        r.observable == observable,
        r.epistemic == epistemic,
        r.metadata.status == NodeStatus::Active,
        r.metadata.extra@.len() == 0,
{
    Node {
        id,
        node_type,
        label,
        tags,
        observable,
        epistemic,
        metadata: NodeMetadata { status: NodeStatus::Active, extra: Vec::new() },
    }
}

} // verus!
