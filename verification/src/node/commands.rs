//! Node commands: add, edit, list, search, remove, inspect, split.
use vstd::prelude::*;
use crate::errors::LtpError;
use crate::link::types::{edge_views, Edge, EdgeView, FeedbackEdge, FeedbackEdgeView, Operator};
use crate::node::clr_lint::{is_clr2_label_warning, label_hits, lint_clr2};
use crate::node::types::{new_node, spec_prefix, EpistemicStatus, Node, NodeStatus, NodeType, NodeView};
use crate::output::{err_is, not_in_tree_detail, not_in_tree_error, quoted_detail, quoted_error, OutputError, OutputWarning};
use crate::strutil::{
    ascii_lower, ascii_upper, cat2, chars_contain, chars_of, clone_opt_string, clone_strings, contains_string, filter_seq, has_id,
    lemma_filter_len, lemma_has_id_views,
    is_ascii_seq, is_substring, lemma_filter_step, lemma_take_all, owned, spec_to_lowercase, spec_to_uppercase,
    to_lowercase, to_uppercase, views,
};
use crate::tree::types::{attached, is_attached, noderef_views, tree_views, NodeRef, NodeRefView, Tree, TreeView};
use crate::workspace::counters::{lemma_mint_chain, minted, nth_id, Counters};

verus! {

/// The node type named by an upper-case string.
pub open spec fn node_type_named(u: Seq<char>) -> Option<NodeType> {
    if u == "UDE"@ { Some(NodeType::Ude) }
    else if u == "RC"@ { Some(NodeType::Rc) }
    else if u == "INJ"@ { Some(NodeType::Inj) }
    else if u == "NC"@ { Some(NodeType::Nc) }
    else if u == "GOAL"@ { Some(NodeType::Goal) }
    else if u == "OBJ"@ { Some(NodeType::Obj) }
    else if u == "WANT"@ { Some(NodeType::Want) }
    else if u == "OBS"@ { Some(NodeType::Obs) }
    else if u == "IO"@ { Some(NodeType::Io) }
    else if u == "INT"@ { Some(NodeType::Int) }
    else if u == "DE"@ { Some(NodeType::De) }
    else if u == "REQ"@ { Some(NodeType::Req) }
    else if u == "PRE"@ { Some(NodeType::Pre) }
    else { None }
}

/// The node status named by a lower-case string.
pub open spec fn node_status_named(l: Seq<char>) -> Option<NodeStatus> {
    if l == "active"@ { Some(NodeStatus::Active) }
    else if l == "draft"@ { Some(NodeStatus::Draft) }
    else if l == "invalidated"@ { Some(NodeStatus::Invalidated) }
    else if l == "superseded"@ { Some(NodeStatus::Superseded) }
    else { None }
}

/// The epistemic status named by a lower-case string.
pub open spec fn epistemic_named(l: Seq<char>) -> Option<EpistemicStatus> {
    if l == "fact"@ { Some(EpistemicStatus::Fact) }
    else if l == "hypothesis"@ { Some(EpistemicStatus::Hypothesis) }
    else if l == "assumption"@ { Some(EpistemicStatus::Assumption) }
    else if l == "derived"@ { Some(EpistemicStatus::Derived) }
    else { None }
}

/// Parse a node type string (case-insensitive).
pub fn parse_node_type(s: &str) -> (r: Result<NodeType, LtpError>)
    ensures
        match node_type_named(spec_to_uppercase(s@)) {
            Some(t) => r == Ok::<NodeType, LtpError>(t),
            None => r matches Err(LtpError::EcValidation(m)) && m@ == "Unknown node type: "@ + spec_to_uppercase(s@),
        },
        is_ascii_seq(s@) ==> (match node_type_named(ascii_upper(s@)) {
            Some(t) => r == Ok::<NodeType, LtpError>(t),
            None => r matches Err(LtpError::EcValidation(m)) && m@ == "Unknown node type: "@ + ascii_upper(s@),
        }),
{
    let u = to_uppercase(s);
    if u == owned("UDE") { Ok(NodeType::Ude) }
    else if u == owned("RC") { Ok(NodeType::Rc) }
    else if u == owned("INJ") { Ok(NodeType::Inj) }
    else if u == owned("NC") { Ok(NodeType::Nc) }
    else if u == owned("GOAL") { Ok(NodeType::Goal) }
    else if u == owned("OBJ") { Ok(NodeType::Obj) }
    else if u == owned("WANT") { Ok(NodeType::Want) }
    else if u == owned("OBS") { Ok(NodeType::Obs) }
    else if u == owned("IO") { Ok(NodeType::Io) }
    else if u == owned("INT") { Ok(NodeType::Int) }
    else if u == owned("DE") { Ok(NodeType::De) }
    else if u == owned("REQ") { Ok(NodeType::Req) }
    else if u == owned("PRE") { Ok(NodeType::Pre) }
    else { Err(LtpError::EcValidation(cat2("Unknown node type: ", u.as_str()))) }
}

/// Parse a node status string (case-insensitive).
pub fn parse_node_status(s: &str) -> (r: Result<NodeStatus, LtpError>)
    ensures
        match node_status_named(spec_to_lowercase(s@)) {
            Some(t) => r == Ok::<NodeStatus, LtpError>(t),
            None => r matches Err(LtpError::EcValidation(m)) && m@ == "Unknown status: "@ + spec_to_lowercase(s@),
        },
        is_ascii_seq(s@) ==> (match node_status_named(ascii_lower(s@)) {
            Some(t) => r == Ok::<NodeStatus, LtpError>(t),
            None => r matches Err(LtpError::EcValidation(m)) && m@ == "Unknown status: "@ + ascii_lower(s@),
        }),
{
    let l = to_lowercase(s);
    if l == owned("active") { Ok(NodeStatus::Active) }
    else if l == owned("draft") { Ok(NodeStatus::Draft) }
    else if l == owned("invalidated") { Ok(NodeStatus::Invalidated) }
    else if l == owned("superseded") { Ok(NodeStatus::Superseded) }
    else { Err(LtpError::EcValidation(cat2("Unknown status: ", l.as_str()))) }
}

/// Parse an epistemic status string (case-insensitive).
pub fn parse_epistemic(s: &str) -> (r: Result<EpistemicStatus, LtpError>)
    ensures
        match epistemic_named(spec_to_lowercase(s@)) {
            Some(t) => r == Ok::<EpistemicStatus, LtpError>(t),
            None => r matches Err(LtpError::EcValidation(m)) && m@ == "Unknown epistemic status: "@ + spec_to_lowercase(s@),
        },
        is_ascii_seq(s@) ==> (match epistemic_named(ascii_lower(s@)) {
            Some(t) => r == Ok::<EpistemicStatus, LtpError>(t),
            None => r matches Err(LtpError::EcValidation(m)) && m@ == "Unknown epistemic status: "@ + ascii_lower(s@),
        }),
{
    let l = to_lowercase(s);
    if l == owned("fact") { Ok(EpistemicStatus::Fact) }
    else if l == owned("hypothesis") { Ok(EpistemicStatus::Hypothesis) }
    else if l == owned("assumption") { Ok(EpistemicStatus::Assumption) }
    else if l == owned("derived") { Ok(EpistemicStatus::Derived) }
    else { Err(LtpError::EcValidation(cat2("Unknown epistemic status: ", l.as_str()))) }
}

/// Data returned by `node add`.
#[derive(Debug, Clone)]
pub struct NodeAddData {
    pub id: String,
    pub node_type: NodeType,
    pub label: String,
    pub tags: Vec<String>,
    pub observable: bool,
    pub epistemic: EpistemicStatus,
}

/// Data returned by `node edit`.
#[derive(Debug, Clone)]
pub struct NodeEditData {
    pub id: String,
    pub node_type: NodeType,
    pub label: String,
    pub tags: Vec<String>,
    pub observable: bool,
    pub epistemic: EpistemicStatus,
}

/// Summary of a node for listing.
#[derive(Debug, Clone)]
pub struct NodeSummary {
    pub id: String,
    pub node_type: NodeType,
    pub label: String,
    pub status: NodeStatus,
    pub epistemic: EpistemicStatus,
    pub tags: Vec<String>,
}

pub struct NodeSummaryView {
    pub id: Seq<char>,
    pub node_type: NodeType,
    pub label: Seq<char>,
    pub status: NodeStatus,
    pub epistemic: EpistemicStatus,
    pub tags: Seq<Seq<char>>,
}

impl View for NodeSummary {
    type V = NodeSummaryView;

    open spec fn view(&self) -> NodeSummaryView {
        NodeSummaryView {
            id: self.id@,
            node_type: self.node_type,
            label: self.label@,
            status: self.status,
            epistemic: self.epistemic,
            tags: views(self.tags@),
        }
    }
}

/// The summary of a node.
pub open spec fn summary_of(n: NodeView) -> NodeSummaryView {
    NodeSummaryView { id: n.id, node_type: n.node_type, label: n.label, status: n.status, epistemic: n.epistemic, tags: n.tags }
}

pub open spec fn summary_views(v: Seq<NodeSummary>) -> Seq<NodeSummaryView> {
    v.map_values(|s: NodeSummary| s@)
}

pub open spec fn node_views(v: Seq<Node>) -> Seq<NodeView> {
    v.map_values(|n: Node| n@)
}

/// Data returned by `node list`.
#[derive(Debug, Clone)]
pub struct NodeListData {
    pub nodes: Vec<NodeSummary>,
    pub count: usize,
}

/// Data returned by `node search`.
#[derive(Debug, Clone)]
pub struct NodeSearchData {
    pub query: String,
    pub matches: Vec<NodeSummary>,
    pub count: usize,
}

/// The summary of a node.
pub fn node_to_summary(node: &Node) -> (r: NodeSummary)
    ensures r@ == summary_of(node@),
{
    NodeSummary {
        id: node.id.clone(),
        node_type: node.node_type,
        label: node.label.clone(),
        status: node.metadata.status,
        epistemic: node.epistemic,
        tags: clone_strings(&node.tags),
    }
}

/// The warnings of the CLR-2 lint on a label.
pub open spec fn clr2_warnings(w: Seq<OutputWarning>, label: Seq<char>) -> bool {
    &&& w.len() == label_hits(label).len()
    &&& forall|i: int| 0 <= i < w.len() ==> is_clr2_label_warning(#[trigger] w[i], label, label_hits(label)[i])
}

/// Checks the arguments of `node add` before the workspace is locked:
/// the type must name a node type (error `INVALID_NODE_TYPE`) and the
/// epistemic status, when given, must name one (error `INVALID_EPISTEMIC`).
pub fn validate_node_add(type_str: &str, epistemic: Option<&str>) -> (r: Result<(NodeType, EpistemicStatus), OutputError>)
    ensures
        match node_type_named(spec_to_uppercase(type_str@)) {
            None => err_is(r, "INVALID_NODE_TYPE"@, "EC validation: Unknown node type: "@ + spec_to_uppercase(type_str@)),
            Some(t) => match epistemic {
                None => r == Ok::<(NodeType, EpistemicStatus), OutputError>((t, EpistemicStatus::Hypothesis)),
                Some(s) => match epistemic_named(spec_to_lowercase(s@)) {
                    Some(ep) => r == Ok::<(NodeType, EpistemicStatus), OutputError>((t, ep)),
                    None => err_is(r, "INVALID_EPISTEMIC"@, "EC validation: Unknown epistemic status: "@ + spec_to_lowercase(s@)),
                },
            },
        },
{
    let t = match parse_node_type(type_str) {
        Ok(t) => t,
        Err(e) => {
            let m = e.message();
            proof {
                reveal_strlit("EC validation: ");
                reveal_strlit("Unknown node type: ");
                reveal_strlit("EC validation: Unknown node type: ");
                assert(m@ =~= "EC validation: Unknown node type: "@ + spec_to_uppercase(type_str@));
            }
            return Err(OutputError::new("INVALID_NODE_TYPE", m));
        },
    };
    let ep = match epistemic {
        Some(s) => match parse_epistemic(s) {
            Ok(ep) => ep,
            Err(e) => {
                let m = e.message();
                proof {
                    reveal_strlit("EC validation: ");
                    reveal_strlit("Unknown epistemic status: ");
                    reveal_strlit("EC validation: Unknown epistemic status: ");
                    assert(m@ =~= "EC validation: Unknown epistemic status: "@ + spec_to_lowercase(s@));
                }
                return Err(OutputError::new("INVALID_EPISTEMIC", m));
            },
        },
        None => EpistemicStatus::Hypothesis,
    };
    Ok((t, ep))
}

/// Creates a pool node: its ID is the next of the type's prefix (the
/// type name in upper case), with the given label, tags (none when absent),
/// observability (`true` when absent) and epistemic status, active. Returns
/// the node to store, the reported data and the CLR-2 warnings on the label.
pub fn node_add(counters: &mut Counters, node_type: NodeType, label: &str, tags: Option<Vec<String>>,
    observable: Option<bool>, epistemic: EpistemicStatus) -> (r: (Node, NodeAddData, Vec<OutputWarning>))
    requires
        old(counters).wf(),
        old(counters).room(spec_prefix(node_type), 1),
    ensures
        final(counters).wf(),
        final(counters).values@ == minted(old(counters).values@, spec_prefix(node_type), 1),
        ({
            let id = nth_id(old(counters).values@, spec_prefix(node_type), 1);
            let tg = match tags { Some(t) => views(t@), None => Seq::empty() };
            let obs = match observable { Some(o) => o, None => true };
            &&& r.0@ == (NodeView {
                    id, node_type, label: label@, tags: tg, observable: obs, epistemic,
                    status: NodeStatus::Active, extra: Seq::empty(),
                })
            &&& r.1.id@ == id && r.1.node_type == node_type && r.1.label@ == label@
            &&& views(r.1.tags@) == tg && r.1.observable == obs && r.1.epistemic == epistemic
            &&& clr2_warnings(r.2@, label@)
        }),
{
    let id = counters.mint(node_type.prefix());
    let obs = match observable { Some(o) => o, None => true };
    let node_tags = match tags { Some(t) => t, None => Vec::new() };
    let node = new_node(id.clone(), node_type, owned(label), clone_strings(&node_tags), obs, epistemic);
    proof {
        assert(node@.extra =~= Seq::<(Seq<char>, Seq<char>)>::empty());
        if tags is None { assert(views(node_tags@) =~= Seq::<Seq<char>>::empty()); }
    }
    let warnings = lint_clr2(label);
    let data = NodeAddData { id, node_type, label: owned(label), tags: node_tags, observable: obs, epistemic };
    (node, data, warnings)
}

/// `v` without the occurrences of `t`.
pub open spec fn without(v: Seq<Seq<char>>, t: Seq<char>) -> Seq<Seq<char>> {
    filter_seq(v, |x: Seq<char>| x != t)
}

/// The tags after `node edit`: `add` appended when not present, then every
/// occurrence of `rm` removed.
pub open spec fn edited_tags(tags: Seq<Seq<char>>, add: Option<Seq<char>>, rm: Option<Seq<char>>) -> Seq<Seq<char>> {
    let a = match add {
        Some(t) => if tags.contains(t) { tags } else { tags.push(t) },
        None => tags,
    };
    match rm {
        Some(t) => without(a, t),
        None => a,
    }
}

pub open spec fn opt_str_view(o: Option<&str>) -> Option<Seq<char>> {
    match o {
        Some(s) => Some(s@),
        None => None,
    }
}

/// Remove every occurrence of `t` from `v`.
fn remove_all(v: &Vec<String>, t: &String) -> (r: Vec<String>)
    ensures views(r@) == without(views(v@), t@),
{
    let mut r: Vec<String> = Vec::new();
    let mut i: usize = 0;
    while i < v.len()
        invariant
            i <= v@.len(),
            views(r@) == without(views(v@).take(i as int), t@),
        decreases v@.len() - i,
    {
        proof { lemma_filter_step(views(v@), |x: Seq<char>| x != t@, i as int); }
        let ghost pre = r@;
        if v[i] != *t {
            r.push(v[i].clone());
            proof { assert(views(r@) =~= views(pre).push(v@[i as int]@)); }
        }
        i = i + 1;
    }
    proof { lemma_take_all(views(v@)); }
    r
}

/// Edit a pool node: new label, a tag added (when not present) and one
/// removed (every occurrence), observability and epistemic status; absent
/// arguments leave the field alone. The CLR-2 lint runs on the label when a
/// new one is given.
pub fn node_edit(node: &mut Node, label: Option<&str>, add_tag: Option<&str>, rm_tag: Option<&str>,
    observable: Option<bool>, epistemic: Option<EpistemicStatus>) -> (r: (NodeEditData, Vec<OutputWarning>))
    ensures
        ({
            let o = old(node)@;
            let n = final(node)@;
            &&& n.id == o.id && n.node_type == o.node_type && n.status == o.status && n.extra == o.extra
            &&& n.label == match label { Some(l) => l@, None => o.label }
            &&& n.tags == edited_tags(o.tags, opt_str_view(add_tag), opt_str_view(rm_tag))
            &&& n.observable == match observable { Some(b) => b, None => o.observable }
            &&& n.epistemic == match epistemic { Some(e) => e, None => o.epistemic }
            &&& r.0.id@ == n.id && r.0.node_type == n.node_type && r.0.label@ == n.label
            &&& views(r.0.tags@) == n.tags && r.0.observable == n.observable && r.0.epistemic == n.epistemic
            &&& label is Some ==> clr2_warnings(r.1@, n.label)
            &&& label is None ==> r.1@.len() == 0
        }),
{
    if let Some(l) = label {
        node.label = owned(l);
    }
    if let Some(t) = add_tag {
        let ts = owned(t);
        if !contains_string(&node.tags, &ts) {
            let ghost pre = node.tags@;
            node.tags.push(ts);
            proof { assert(views(node.tags@) =~= views(pre).push(t@)); }
        } else {
            proof {
                let k = choose|k: int| 0 <= k < node.tags@.len() && #[trigger] node.tags@[k]@ == t@;
                assert(views(node.tags@)[k] == t@);
            }
        }
    }
    proof {
        if let Some(t) = add_tag {
            if !views(old(node).tags@).contains(t@) {
                assert forall|k: int| 0 <= k < old(node).tags@.len() implies #[trigger] old(node).tags@[k]@ != t@ by {
                    assert(views(old(node).tags@)[k] == old(node).tags@[k]@);
                }
            }
        }
    }
    if let Some(t) = rm_tag {
        let ts = owned(t);
        node.tags = remove_all(&node.tags, &ts);
    }
    if let Some(b) = observable {
        node.observable = b;
    }
    if let Some(e) = epistemic {
        node.epistemic = e;
    }
    let warnings = match label {
        Some(_) => lint_clr2(node.label.as_str()),
        None => Vec::new(),
    };
    let data = NodeEditData {
        id: node.id.clone(),
        node_type: node.node_type,
        label: node.label.clone(),
        tags: clone_strings(&node.tags),
        observable: node.observable,
        epistemic: node.epistemic,
    };
    (data, warnings)
}

/// Compact representation of an edge for inspect output.
#[derive(Debug, Clone)]
pub struct EdgeSummary {
    pub id: String,
    pub from: Vec<String>,
    pub to: String,
    pub operator: Operator,
}

/// Inbound and outbound connections of a node within a tree.
#[derive(Debug, Clone)]
pub struct NodeConnections {
    pub inbound: Vec<EdgeSummary>,
    pub outbound: Vec<EdgeSummary>,
}

/// Summary of a node's participation in one tree.
#[derive(Debug, Clone)]
pub struct NodeTreeParticipation {
    pub tree_id: String,
    pub tree_name: String,
    pub role: Option<String>,
    pub connections: NodeConnections,
}

/// Data returned by `node inspect`.
#[derive(Debug, Clone)]
pub struct NodeInspectData {
    pub id: String,
    pub node_type: NodeType,
    pub label: String,
    pub tags: Vec<String>,
    pub observable: bool,
    pub epistemic: EpistemicStatus,
    pub status: NodeStatus,
    pub trees: Vec<NodeTreeParticipation>,
}

/// A summary describes an edge.
pub open spec fn summarizes(s: EdgeSummary, e: Edge) -> bool {
    s.id@ == e.id@ && views(s.from@) == views(e.from@) && s.to@ == e.to@ && s.operator == e.operator
}

/// The summaries describe the edges, one for one.
pub open spec fn summaries_of(s: Seq<EdgeSummary>, edges: Seq<Edge>) -> bool {
    s.len() == edges.len() && forall|k: int| 0 <= k < s.len() ==> summarizes(#[trigger] s[k], edges[k])
}

/// The edges into the node.
pub open spec fn inbound_edges(edges: Seq<Edge>, id: Seq<char>) -> Seq<Edge> {
    filter_seq(edges, |e: Edge| e.to@ == id)
}

/// The edges with the node among their causes.
pub open spec fn outbound_edges(edges: Seq<Edge>, id: Seq<char>) -> Seq<Edge> {
    filter_seq(edges, |e: Edge| has_id(e.from@, id))
}

/// The role of the node's first attachment in the tree.
pub open spec fn first_role(nodes: Seq<NodeRef>, id: Seq<char>) -> Option<Seq<char>>
    decreases nodes.len(),
{
    if nodes.len() == 0 {
        None
    } else if nodes[0].node_ref@ == id {
        crate::link::types::opt_view(nodes[0].role)
    } else {
        first_role(nodes.drop_first(), id)
    }
}

/// A participation describes the node in a tree.
pub open spec fn participation_of(p: NodeTreeParticipation, t: Tree, id: Seq<char>) -> bool {
    &&& p.tree_id@ == t.id@ && p.tree_name@ == t.name@
    &&& crate::link::types::opt_view(p.role) == first_role(t.nodes@, id)
    &&& summaries_of(p.connections.inbound@, inbound_edges(t.edges@, id))
    &&& summaries_of(p.connections.outbound@, outbound_edges(t.edges@, id))
}

/// The trees the node is attached to, in order.
pub open spec fn participating(trees: Seq<Tree>, id: Seq<char>) -> Seq<Tree> {
    filter_seq(trees, |t: Tree| attached(t.nodes@, id))
}

fn edge_summary(e: &Edge) -> (r: EdgeSummary)
    ensures summarizes(r, *e),
{
    EdgeSummary { id: e.id.clone(), from: clone_strings(&e.from), to: e.to.clone(), operator: e.operator }
}

fn connections(edges: &Vec<Edge>, id: &String, inbound: bool) -> (r: Vec<EdgeSummary>)
    ensures summaries_of(r@, if inbound { inbound_edges(edges@, id@) } else { outbound_edges(edges@, id@) }),
{
    let ghost p = if inbound { |e: Edge| e.to@ == id@ } else { |e: Edge| has_id(e.from@, id@) };
    let mut r: Vec<EdgeSummary> = Vec::new();
    let mut i: usize = 0;
    while i < edges.len()
        invariant
            i <= edges@.len(),
            p == (if inbound { |e: Edge| e.to@ == id@ } else { |e: Edge| has_id(e.from@, id@) }),
            summaries_of(r@, filter_seq(edges@.take(i as int), p)),
        decreases edges@.len() - i,
    {
        proof { lemma_filter_step(edges@, p, i as int); }
        let e = &edges[i];
        let keep = if inbound { e.to == *id } else { contains_string(&e.from, id) };
        if keep {
            let ghost pre = r@;
            r.push(edge_summary(e));
            proof {
                let f = filter_seq(edges@.take(i + 1), p);
                assert forall|k: int| 0 <= k < r@.len() implies summarizes(#[trigger] r@[k], f[k]) by {
                    if k < pre.len() { assert(r@[k] == pre[k]); }
                }
            }
        }
        i = i + 1;
    }
    proof { lemma_take_all(edges@); }
    r
}

fn first_attachment_role(nodes: &Vec<NodeRef>, id: &String) -> (r: Option<String>)
    ensures crate::link::types::opt_view(r) == first_role(nodes@, id@),
{
    let mut i: usize = 0;
    assert(nodes@.subrange(0, nodes@.len() as int) =~= nodes@);
    while i < nodes.len()
        invariant
            i <= nodes@.len(),
            first_role(nodes@, id@) == first_role(nodes@.subrange(i as int, nodes@.len() as int), id@),
        decreases nodes@.len() - i,
    {
        proof {
            let s = nodes@.subrange(i as int, nodes@.len() as int);
            assert(s.drop_first() =~= nodes@.subrange(i + 1, nodes@.len() as int));
            assert(s[0] == nodes@[i as int]);
        }
        if nodes[i].node_ref == *id {
            return clone_opt_string(&nodes[i].role);
        }
        i = i + 1;
    }
    None
}

/// `node inspect` on the node loaded for `id` (`None` when it could not be
/// loaded) and the trees that could be loaded: the node's fields and, for
/// each tree it is attached to, its role there and the edges into and out
/// of it.
pub fn node_inspect(id: &str, loaded: Option<Node>, trees: &Vec<Tree>) -> (r: Result<NodeInspectData, OutputError>)
    ensures
        loaded is None ==> err_is(r, "NODE_NOT_FOUND"@, quoted_detail("Node"@, id@, " not found"@)),
        loaded matches Some(n) ==> (r matches Ok(d) && {
            &&& d.id == n.id && d.node_type == n.node_type && d.label == n.label && d.tags == n.tags
            &&& d.observable == n.observable && d.epistemic == n.epistemic && d.status == n.metadata.status
            &&& d.trees@.len() == participating(trees@, id@).len()
            &&& forall|k: int| 0 <= k < d.trees@.len() ==> participation_of(#[trigger] d.trees@[k], participating(trees@, id@)[k], id@)
        }),
{
    let node = match loaded {
        Some(n) => n,
        None => { return Err(quoted_error("NODE_NOT_FOUND", "Node", id, " not found")); },
    };
    let key = owned(id);
    let ghost p = |t: Tree| attached(t.nodes@, id@);
    let mut parts: Vec<NodeTreeParticipation> = Vec::new();
    let mut i: usize = 0;
    while i < trees.len()
        invariant
            i <= trees@.len(),
            key@ == id@,
            p == (|t: Tree| attached(t.nodes@, id@)),
            parts@.len() == filter_seq(trees@.take(i as int), p).len(),
            forall|k: int| 0 <= k < parts@.len() ==> participation_of(#[trigger] parts@[k], filter_seq(trees@.take(i as int), p)[k], id@),
        decreases trees@.len() - i,
    {
        proof { lemma_filter_step(trees@, p, i as int); }
        let t = &trees[i];
        if is_attached(&t.nodes, &key) {
            let part = NodeTreeParticipation {
                tree_id: t.id.clone(),
                tree_name: t.name.clone(),
                role: first_attachment_role(&t.nodes, &key),
                connections: NodeConnections { inbound: connections(&t.edges, &key, true), outbound: connections(&t.edges, &key, false) },
            };
            let ghost pre = parts@;
            parts.push(part);
            proof {
                let f = filter_seq(trees@.take(i + 1), p);
                assert forall|k: int| 0 <= k < parts@.len() implies participation_of(#[trigger] parts@[k], f[k], id@) by {
                    if k < pre.len() { assert(parts@[k] == pre[k]); }
                }
            }
        }
        i = i + 1;
    }
    proof { lemma_take_all(trees@); }
    Ok(NodeInspectData {
        id: node.id,
        node_type: node.node_type,
        label: node.label,
        tags: node.tags,
        observable: node.observable,
        epistemic: node.epistemic,
        status: node.metadata.status,
        trees: parts,
    })
}

} // verus!

verus! {

pub open spec fn opt_views(o: Option<&Vec<String>>) -> Option<Seq<Seq<char>>> {
    match o {
        Some(v) => Some(views(v@)),
        None => None,
    }
}

/// A node passes the filters of `node list`: one of the named types, one
/// of the named statuses (unknown names are ignored), and the epistemic
/// status when it names one.
pub open spec fn node_selected(n: NodeView, types: Option<Seq<Seq<char>>>, statuses: Option<Seq<Seq<char>>>, ep: Option<Seq<char>>) -> bool {
    &&& match types {
        Some(f) => exists|i: int| 0 <= i < f.len() && node_type_named(spec_to_uppercase(#[trigger] f[i])) == Some(n.node_type),
        None => true,
    }
    &&& match statuses {
        Some(f) => exists|i: int| 0 <= i < f.len() && node_status_named(spec_to_lowercase(#[trigger] f[i])) == Some(n.status),
        None => true,
    }
    &&& match ep {
        Some(e) => match epistemic_named(spec_to_lowercase(e)) {
            Some(x) => n.epistemic == x,
            None => true,
        },
        None => true,
    }
}

pub open spec fn list_selector(types: Option<Seq<Seq<char>>>, statuses: Option<Seq<Seq<char>>>, ep: Option<Seq<char>>) -> spec_fn(NodeView) -> bool {
    |n: NodeView| node_selected(n, types, statuses, ep)
}

pub open spec fn summaries(v: Seq<NodeView>) -> Seq<NodeSummaryView> {
    v.map_values(|n: NodeView| summary_of(n))
}

/// The node types named in a filter list, unknown names skipped.
fn parse_type_filter(f: &Vec<String>) -> (r: Vec<NodeType>)
    ensures forall|t: NodeType| r@.contains(t) <==>
        exists|i: int| 0 <= i < f@.len() && node_type_named(spec_to_uppercase(#[trigger] f@[i]@)) == Some(t),
{
    let mut r: Vec<NodeType> = Vec::new();
    let mut i: usize = 0;
    while i < f.len()
        invariant
            i <= f@.len(),
            forall|t: NodeType| r@.contains(t) <==>
                exists|k: int| 0 <= k < i && node_type_named(spec_to_uppercase(#[trigger] f@[k]@)) == Some(t),
        decreases f@.len() - i,
    {
        let ghost pre = r@;
        match parse_node_type(f[i].as_str()) {
            Ok(t) => { r.push(t); },
            Err(_) => {},
        }
        proof {
            assert forall|t: NodeType| r@.contains(t) <==>
                exists|k: int| 0 <= k < i + 1 && node_type_named(spec_to_uppercase(#[trigger] f@[k]@)) == Some(t) by {
                if r@.contains(t) {
                    let q = choose|q: int| 0 <= q < r@.len() && r@[q] == t;
                    if q < pre.len() {
                        assert(pre.contains(t));
                    } else {
                        assert(node_type_named(spec_to_uppercase(f@[i as int]@)) == Some(t));
                    }
                }
                if exists|k: int| 0 <= k < i + 1 && node_type_named(spec_to_uppercase(#[trigger] f@[k]@)) == Some(t) {
                    let k = choose|k: int| 0 <= k < i + 1 && node_type_named(spec_to_uppercase(#[trigger] f@[k]@)) == Some(t);
                    if k < i {
                        assert(pre.contains(t));
                        let q = choose|q: int| 0 <= q < pre.len() && pre[q] == t;
                        assert(r@[q] == t);
                    } else {
                        assert(r@[pre.len() as int] == t);
                    }
                }
            }
        }
        i = i + 1;
    }
    r
}

/// The node statuses named in a filter list, unknown names skipped.
fn parse_status_filter(f: &Vec<String>) -> (r: Vec<NodeStatus>)
    ensures forall|t: NodeStatus| r@.contains(t) <==>
        exists|i: int| 0 <= i < f@.len() && node_status_named(spec_to_lowercase(#[trigger] f@[i]@)) == Some(t),
{
    let mut r: Vec<NodeStatus> = Vec::new();
    let mut i: usize = 0;
    while i < f.len()
        invariant
            i <= f@.len(),
            forall|t: NodeStatus| r@.contains(t) <==>
                exists|k: int| 0 <= k < i && node_status_named(spec_to_lowercase(#[trigger] f@[k]@)) == Some(t),
        decreases f@.len() - i,
    {
        let ghost pre = r@;
        match parse_node_status(f[i].as_str()) {
            Ok(t) => { r.push(t); },
            Err(_) => {},
        }
        proof {
            assert forall|t: NodeStatus| r@.contains(t) <==>
                exists|k: int| 0 <= k < i + 1 && node_status_named(spec_to_lowercase(#[trigger] f@[k]@)) == Some(t) by {
                if r@.contains(t) {
                    let q = choose|q: int| 0 <= q < r@.len() && r@[q] == t;
                    if q < pre.len() {
                        assert(pre.contains(t));
                    } else {
                        assert(node_status_named(spec_to_lowercase(f@[i as int]@)) == Some(t));
                    }
                }
                if exists|k: int| 0 <= k < i + 1 && node_status_named(spec_to_lowercase(#[trigger] f@[k]@)) == Some(t) {
                    let k = choose|k: int| 0 <= k < i + 1 && node_status_named(spec_to_lowercase(#[trigger] f@[k]@)) == Some(t);
                    if k < i {
                        assert(pre.contains(t));
                        let q = choose|q: int| 0 <= q < pre.len() && pre[q] == t;
                        assert(r@[q] == t);
                    } else {
                        assert(r@[pre.len() as int] == t);
                    }
                }
            }
        }
        i = i + 1;
    }
    r
}

fn has_type(v: &Vec<NodeType>, t: NodeType) -> (r: bool)
    ensures r == v@.contains(t),
{
    let mut i: usize = 0;
    while i < v.len()
        invariant i <= v@.len(), forall|k: int| 0 <= k < i ==> v@[k] != t,
        decreases v@.len() - i,
    {
        if v[i] == t { return true; }
        i = i + 1;
    }
    false
}

fn has_status(v: &Vec<NodeStatus>, t: NodeStatus) -> (r: bool)
    ensures r == v@.contains(t),
{
    let mut i: usize = 0;
    while i < v.len()
        invariant i <= v@.len(), forall|k: int| 0 <= k < i ==> v@[k] != t,
        decreases v@.len() - i,
    {
        if v[i] == t { return true; }
        i = i + 1;
    }
    false
}

/// `node list`: the summaries, in order, of the loaded nodes that pass the
/// filters.
pub fn node_list(nodes: &Vec<Node>, type_filter: Option<&Vec<String>>, status_filter: Option<&Vec<String>>,
    epistemic_filter: Option<&str>) -> (r: NodeListData)
    ensures
        summary_views(r.nodes@) == summaries(filter_seq(node_views(nodes@),
            list_selector(opt_views(type_filter), opt_views(status_filter), opt_str_view(epistemic_filter)))),
        r.count == r.nodes@.len(),
{
    let ghost sel = list_selector(opt_views(type_filter), opt_views(status_filter), opt_str_view(epistemic_filter));
    let types = match type_filter { Some(f) => Some(parse_type_filter(f)), None => None };
    let statuses = match status_filter { Some(f) => Some(parse_status_filter(f)), None => None };
    let ep = match epistemic_filter {
        Some(s) => match parse_epistemic(s) { Ok(e) => Some(e), Err(_) => None },
        None => None,
    };
    let mut out: Vec<NodeSummary> = Vec::new();
    let mut i: usize = 0;
    while i < nodes.len()
        invariant
            i <= nodes@.len(),
            sel == list_selector(opt_views(type_filter), opt_views(status_filter), opt_str_view(epistemic_filter)),
            type_filter is None ==> types is None,
            type_filter matches Some(f) ==> (types matches Some(tv) && forall|t: NodeType| tv@.contains(t) <==>
                exists|k: int| 0 <= k < f@.len() && node_type_named(spec_to_uppercase(#[trigger] f@[k]@)) == Some(t)),
            status_filter is None ==> statuses is None,
            status_filter matches Some(f) ==> (statuses matches Some(sv) && forall|t: NodeStatus| sv@.contains(t) <==>
                exists|k: int| 0 <= k < f@.len() && node_status_named(spec_to_lowercase(#[trigger] f@[k]@)) == Some(t)),
            epistemic_filter is None ==> ep is None,
            epistemic_filter matches Some(s) ==> match epistemic_named(spec_to_lowercase(s@)) {
                Some(x) => ep == Some(x),
                None => ep is None,
            },
            summary_views(out@) == summaries(filter_seq(node_views(nodes@).take(i as int), sel)),
        decreases nodes@.len() - i,
    {
        let n = &nodes[i];
        let t_ok = match &types { Some(tv) => has_type(tv, n.node_type), None => true };
        let s_ok = match &statuses { Some(sv) => has_status(sv, n.metadata.status), None => true };
        let e_ok = match ep { Some(x) => n.epistemic == x, None => true };
        proof {
            lemma_filter_step(node_views(nodes@), sel, i as int);
            let nv = node_views(nodes@)[i as int];
            assert(nv == n@);
            if let Some(f) = type_filter {
                let fv = views(f@);
                if t_ok {
                    let k = choose|k: int| 0 <= k < f@.len() && node_type_named(spec_to_uppercase(#[trigger] f@[k]@)) == Some(n.node_type);
                    assert(fv[k] == f@[k]@);
                }
                if exists|k: int| 0 <= k < fv.len() && node_type_named(spec_to_uppercase(#[trigger] fv[k])) == Some(nv.node_type) {
                    let k = choose|k: int| 0 <= k < fv.len() && node_type_named(spec_to_uppercase(#[trigger] fv[k])) == Some(nv.node_type);
                    assert(fv[k] == f@[k]@);
                }
            }
            if let Some(f) = status_filter {
                let fv = views(f@);
                if s_ok {
                    let k = choose|k: int| 0 <= k < f@.len() && node_status_named(spec_to_lowercase(#[trigger] f@[k]@)) == Some(n.metadata.status);
                    assert(fv[k] == f@[k]@);
                }
                if exists|k: int| 0 <= k < fv.len() && node_status_named(spec_to_lowercase(#[trigger] fv[k])) == Some(nv.status) {
                    let k = choose|k: int| 0 <= k < fv.len() && node_status_named(spec_to_lowercase(#[trigger] fv[k])) == Some(nv.status);
                    assert(fv[k] == f@[k]@);
                }
            }
            assert((t_ok && s_ok && e_ok) == sel(nv));
        }
        let ghost pre = out@;
        if t_ok && s_ok && e_ok {
            out.push(node_to_summary(n));
            proof { assert(summary_views(out@) =~= summary_views(pre).push(summary_of(n@))); }
        }
        i = i + 1;
    }
    proof { lemma_take_all(node_views(nodes@)); }
    let count = out.len();
    NodeListData { nodes: out, count }
}

/// The label matches the query, both lower-cased.
pub open spec fn label_matches(n: NodeView, q: Seq<char>) -> bool {
    is_substring(spec_to_lowercase(n.label), spec_to_lowercase(q))
}

pub open spec fn search_selector(q: Seq<char>) -> spec_fn(NodeView) -> bool {
    |n: NodeView| label_matches(n, q)
}

/// `node search`: the summaries, in order, of the loaded nodes whose label
/// contains the query, ignoring case.
pub fn node_search(nodes: &Vec<Node>, query: &str) -> (r: NodeSearchData)
    ensures
        r.query@ == query@,
        summary_views(r.matches@) == summaries(filter_seq(node_views(nodes@), search_selector(query@))),
        r.count == r.matches@.len(),
{
    let q = to_lowercase(query);
    let qc = chars_of(q.as_str());
    let mut out: Vec<NodeSummary> = Vec::new();
    let mut i: usize = 0;
    while i < nodes.len()
        invariant
            i <= nodes@.len(),
            qc@ == spec_to_lowercase(query@),
            summary_views(out@) == summaries(filter_seq(node_views(nodes@).take(i as int), search_selector(query@))),
        decreases nodes@.len() - i,
    {
        let n = &nodes[i];
        let l = to_lowercase(n.label.as_str());
        let lc = chars_of(l.as_str());
        let hit = chars_contain(&lc, &qc);
        proof {
            lemma_filter_step(node_views(nodes@), search_selector(query@), i as int);
            assert(node_views(nodes@)[i as int] == n@);
        }
        let ghost pre = out@;
        if hit {
            out.push(node_to_summary(n));
            proof { assert(summary_views(out@) =~= summary_views(pre).push(summary_of(n@))); }
        }
        i = i + 1;
    }
    proof { lemma_take_all(node_views(nodes@)); }
    let count = out.len();
    NodeSearchData { query: owned(query), matches: out, count }
}

} // verus!

verus! {

/// The edge has an end among `ids`.
pub open spec fn touches(ids: Seq<Seq<char>>, e: EdgeView) -> bool {
    ids.contains(e.to) || exists|j: int| 0 <= j < e.from.len() && ids.contains(#[trigger] e.from[j])
}

pub open spec fn keep_ref(ids: Seq<Seq<char>>) -> spec_fn(NodeRefView) -> bool {
    |n: NodeRefView| !ids.contains(n.node_ref)
}

pub open spec fn keep_edge(ids: Seq<Seq<char>>) -> spec_fn(EdgeView) -> bool {
    |e: EdgeView| !touches(ids, e)
}

pub open spec fn keep_feedback(ids: Seq<Seq<char>>) -> spec_fn(FeedbackEdgeView) -> bool {
    |f: FeedbackEdgeView| !ids.contains(f.from) && !ids.contains(f.to)
}

/// The tree without the nodes `ids`, the edges touching them and the
/// feedback edges at them.
pub open spec fn pruned(t: TreeView, ids: Seq<Seq<char>>) -> TreeView {
    TreeView {
        id: t.id,
        name: t.name,
        tree_type: t.tree_type,
        logic: t.logic,
        nodes: filter_seq(t.nodes, keep_ref(ids)),
        edges: filter_seq(t.edges, keep_edge(ids)),
        macro_edges: t.macro_edges,
        feedback_edges: filter_seq(t.feedback_edges, keep_feedback(ids)),
        nbr_branches: t.nbr_branches,
    }
}

/// Pruning changes the tree.
pub open spec fn prune_changed(t: TreeView, ids: Seq<Seq<char>>) -> bool {
    let p = pruned(t, ids);
    p.nodes.len() != t.nodes.len() || p.edges.len() != t.edges.len() || p.feedback_edges.len() != t.feedback_edges.len()
}

/// Number of edges and feedback edges pruning removes.
pub open spec fn prune_removed(t: TreeView, ids: Seq<Seq<char>>) -> int {
    let p = pruned(t, ids);
    (t.edges.len() - p.edges.len()) + (t.feedback_edges.len() - p.feedback_edges.len())
}

/// Whether the edge has an end among `ids`.
fn edge_touches(e: &Edge, ids: &Vec<String>) -> (r: bool)
    ensures r == touches(views(ids@), e@),
{
    proof { lemma_has_id_views(ids@, e.to@); }
    if contains_string(ids, &e.to) {
        return true;
    }
    let mut j: usize = 0;
    while j < e.from.len()
        invariant
            j <= e.from@.len(),
            forall|q: int| 0 <= q < j ==> !views(ids@).contains(#[trigger] e@.from[q]),
        decreases e.from@.len() - j,
    {
        proof { lemma_has_id_views(ids@, e.from@[j as int]@); }
        if contains_string(ids, &e.from[j]) {
            proof { assert(views(ids@).contains(e@.from[j as int])); }
            return true;
        }
        j = j + 1;
    }
    false
}

/// Removes from the tree the nodes `ids`, the edges with an end among them
/// and the feedback edges at them. Returns whether the tree changed and how
/// many edges and feedback edges went.
pub fn prune_tree(tree: &mut Tree, ids: &Vec<String>) -> (r: (bool, usize))
    requires old(tree).edges@.len() + old(tree).feedback_edges@.len() <= usize::MAX,
    ensures
        final(tree)@ == pruned(old(tree)@, views(ids@)),
        r.0 == prune_changed(old(tree)@, views(ids@)),
        r.1 == prune_removed(old(tree)@, views(ids@)),
{
    let ghost idv = views(ids@);
    let mut nodes: Vec<NodeRef> = Vec::new();
    let mut i: usize = 0;
    while i < tree.nodes.len()
        invariant
            i <= tree.nodes@.len(),
            idv == views(ids@),
            noderef_views(nodes@) == filter_seq(noderef_views(tree.nodes@).take(i as int), keep_ref(idv)),
        decreases tree.nodes@.len() - i,
    {
        proof {
            lemma_filter_step(noderef_views(tree.nodes@), keep_ref(idv), i as int);
            lemma_has_id_views(ids@, tree.nodes@[i as int].node_ref@);
        }
        let ghost pre = nodes@;
        if !contains_string(ids, &tree.nodes[i].node_ref) {
            nodes.push(crate::tree::types::clone_noderef(&tree.nodes[i]));
            proof { assert(noderef_views(nodes@) =~= noderef_views(pre).push(tree.nodes@[i as int]@)); }
        }
        i = i + 1;
    }
    let mut edges: Vec<Edge> = Vec::new();
    let mut k: usize = 0;
    while k < tree.edges.len()
        invariant
            k <= tree.edges@.len(),
            idv == views(ids@),
            edge_views(edges@) == filter_seq(edge_views(tree.edges@).take(k as int), keep_edge(idv)),
        decreases tree.edges@.len() - k,
    {
        proof { lemma_filter_step(edge_views(tree.edges@), keep_edge(idv), k as int); }
        let ghost pre = edges@;
        if !edge_touches(&tree.edges[k], ids) {
            edges.push(crate::link::types::clone_edge(&tree.edges[k]));
            proof { assert(edge_views(edges@) =~= edge_views(pre).push(tree.edges@[k as int]@)); }
        }
        k = k + 1;
    }
    let mut fbs: Vec<FeedbackEdge> = Vec::new();
    let mut f: usize = 0;
    while f < tree.feedback_edges.len()
        invariant
            f <= tree.feedback_edges@.len(),
            idv == views(ids@),
            crate::link::types::feedback_views(fbs@)
                == filter_seq(crate::link::types::feedback_views(tree.feedback_edges@).take(f as int), keep_feedback(idv)),
        decreases tree.feedback_edges@.len() - f,
    {
        proof {
            lemma_filter_step(crate::link::types::feedback_views(tree.feedback_edges@), keep_feedback(idv), f as int);
            lemma_has_id_views(ids@, tree.feedback_edges@[f as int].from@);
            lemma_has_id_views(ids@, tree.feedback_edges@[f as int].to@);
        }
        let ghost pre = fbs@;
        if !contains_string(ids, &tree.feedback_edges[f].from) && !contains_string(ids, &tree.feedback_edges[f].to) {
            fbs.push(crate::link::types::clone_feedback(&tree.feedback_edges[f]));
            proof {
                assert(crate::link::types::feedback_views(fbs@)
                    =~= crate::link::types::feedback_views(pre).push(tree.feedback_edges@[f as int]@));
            }
        }
        f = f + 1;
    }
    proof {
        lemma_take_all(noderef_views(tree.nodes@));
        lemma_take_all(edge_views(tree.edges@));
        lemma_take_all(crate::link::types::feedback_views(tree.feedback_edges@));
        lemma_filter_len(noderef_views(tree.nodes@), keep_ref(idv));
        lemma_filter_len(edge_views(tree.edges@), keep_edge(idv));
        lemma_filter_len(crate::link::types::feedback_views(tree.feedback_edges@), keep_feedback(idv));
    }
    let changed = nodes.len() != tree.nodes.len() || edges.len() != tree.edges.len()
        || fbs.len() != tree.feedback_edges.len();
    let removed = (tree.edges.len() - edges.len()) + (tree.feedback_edges.len() - fbs.len());
    tree.nodes = nodes;
    tree.edges = edges;
    tree.feedback_edges = fbs;
    (changed, removed)
}

/// Data returned by `node rm`.
#[derive(Debug, Clone)]
pub struct NodeRmData {
    pub removed_nodes: Vec<String>,
    pub removed_edges_count: usize,
    pub affected_trees: Vec<String>,
}

/// Checks the arguments of `node rm`: some ID must be given
/// (`INVALID_ARGS`) and each must name a pool node (`NODE_NOT_FOUND` for
/// the first that does not).
pub fn validate_node_rm(pool: &Vec<String>, ids: &Vec<String>) -> (r: Result<(), OutputError>)
    ensures
        ids@.len() == 0 ==> err_is(r, "INVALID_ARGS"@, "No node IDs provided"@),
        ids@.len() > 0 && (forall|i: int| 0 <= i < ids@.len() ==> has_id(pool@, #[trigger] ids@[i]@)) ==> r is Ok,
        forall|i: int| 0 <= i < ids@.len() && !has_id(pool@, #[trigger] ids@[i]@)
            && (forall|k: int| 0 <= k < i ==> has_id(pool@, #[trigger] ids@[k]@))
            ==> err_is(r, "NODE_NOT_FOUND"@, quoted_detail("Node"@, ids@[i]@, " not found in pool"@)),
{
    if ids.len() == 0 {
        return Err(OutputError::new("INVALID_ARGS", owned("No node IDs provided")));
    }
    let mut i: usize = 0;
    while i < ids.len()
        invariant
            i <= ids@.len(),
            forall|k: int| 0 <= k < i ==> has_id(pool@, #[trigger] ids@[k]@),
        decreases ids@.len() - i,
    {
        if !contains_string(pool, &ids[i]) {
            let e = quoted_error("NODE_NOT_FOUND", "Node", ids[i].as_str(), " not found in pool");
            proof {
                assert forall|j: int| 0 <= j < ids@.len() && !has_id(pool@, #[trigger] ids@[j]@)
                    && (forall|k: int| 0 <= k < j ==> has_id(pool@, #[trigger] ids@[k]@)) implies j == i by {
                    if j < i { } else if j > i { assert(has_id(pool@, ids@[i as int]@)); }
                }
            }
            return Err(e);
        }
        i = i + 1;
    }
    Ok(())
}

pub open spec fn changed_selector(ids: Seq<Seq<char>>) -> spec_fn(TreeView) -> bool {
    |t: TreeView| prune_changed(t, ids)
}

/// Total number of edges and feedback edges of the trees.
pub open spec fn links_total(ts: Seq<TreeView>) -> nat
    decreases ts.len(),
{
    if ts.len() == 0 { 0 } else { links_total(ts.drop_last()) + ts.last().edges.len() + ts.last().feedback_edges.len() }
}

/// Number of edges and feedback edges pruning removes from all the trees.
pub open spec fn removed_total(ts: Seq<TreeView>, ids: Seq<Seq<char>>) -> int
    decreases ts.len(),
{
    if ts.len() == 0 { 0 } else { removed_total(ts.drop_last(), ids) + prune_removed(ts.last(), ids) }
}

proof fn lemma_removed_bound(ts: Seq<TreeView>, ids: Seq<Seq<char>>)
    ensures 0 <= removed_total(ts, ids) <= links_total(ts),
    decreases ts.len(),
{
    if ts.len() > 0 {
        lemma_removed_bound(ts.drop_last(), ids);
        let t = ts.last();
        lemma_filter_len(t.edges, keep_edge(ids));
        lemma_filter_len(t.feedback_edges, keep_feedback(ids));
    }
}

proof fn lemma_links_total_prefix(ts: Seq<TreeView>, i: int)
    requires 0 <= i <= ts.len(),
    ensures links_total(ts.take(i)) <= links_total(ts),
    decreases ts.len() - i,
{
    if i < ts.len() {
        lemma_links_total_prefix(ts, i + 1);
        assert(ts.take(i + 1).drop_last() =~= ts.take(i));
    } else {
        assert(ts.take(i) =~= ts);
    }
}

/// `node rm`: removes the nodes `ids` from every tree (nodes, edges with an
/// end among them, feedback edges at them). Reports the IDs, the number of
/// edges and feedback edges removed, and the trees that changed, in order.
/// The caller deletes the nodes from the pool and stores the changed trees.
pub fn node_rm(trees: Vec<Tree>, ids: &Vec<String>) -> (r: (Vec<Tree>, NodeRmData))
    requires links_total(tree_views(trees@)) <= usize::MAX,
    ensures
        r.0@.len() == trees@.len(),
        forall|k: int| 0 <= k < trees@.len() ==> (#[trigger] r.0@[k])@ == pruned(trees@[k]@, views(ids@)),
        r.1.removed_nodes@ == ids@,
        r.1.removed_edges_count == removed_total(tree_views(trees@), views(ids@)),
        views(r.1.affected_trees@) == filter_seq(tree_views(trees@), changed_selector(views(ids@)))
            .map_values(|t: TreeView| t.id),
{
    let ghost tv = tree_views(trees@);
    let ghost idv = views(ids@);
    let n0 = trees.len();
    assert(tv.len() == n0);
    let mut rest = trees;
    let mut out: Vec<Tree> = Vec::new();
    let mut affected: Vec<String> = Vec::new();
    let mut total: usize = 0;
    let mut i: usize = 0;
    while rest.len() > 0
        invariant
            idv == views(ids@),
            tv.len() == out@.len() + rest@.len(),
            i == out@.len(),
            links_total(tv) <= usize::MAX,
            tv.len() <= usize::MAX,
            forall|k: int| 0 <= k < rest@.len() ==> (#[trigger] rest@[k])@ == tv[i + k],
            forall|k: int| 0 <= k < i ==> (#[trigger] out@[k])@ == pruned(tv[k], idv),
            total == removed_total(tv.take(i as int), idv),
            views(affected@) == filter_seq(tv.take(i as int), changed_selector(idv)).map_values(|t: TreeView| t.id),
        decreases rest@.len(),
    {
        let mut t = rest.remove(0);
        assert(t@ == tv[i as int]);
        proof {
            lemma_links_total_prefix(tv, i + 1);
            assert(tv.take(i + 1).drop_last() =~= tv.take(i as int));
            assert(tv.take(i + 1).last() == tv[i as int]);
        }
        let (changed, removed) = prune_tree(&mut t, ids);
        proof {
            lemma_filter_step(tv, changed_selector(idv), i as int);
            assert(tv.take(i + 1).drop_last() =~= tv.take(i as int));
            assert(tv.take(i + 1).last() == tv[i as int]);
            lemma_removed_bound(tv.take(i + 1), idv);
            lemma_links_total_prefix(tv, i + 1);
        }
        total = total + removed;
        let ghost pre = affected@;
        if changed {
            affected.push(t.id.clone());
            proof {
                assert(views(affected@) =~= views(pre).push(tv[i as int].id));
                assert(filter_seq(tv.take(i + 1), changed_selector(idv)).map_values(|t: TreeView| t.id)
                    =~= filter_seq(tv.take(i as int), changed_selector(idv)).map_values(|t: TreeView| t.id).push(tv[i as int].id));
            }
        }
        out.push(t);
        i = i + 1;
    }
    proof { lemma_take_all(tv); }
    (out, NodeRmData { removed_nodes: clone_strings(ids), removed_edges_count: total, affected_trees: affected })
}

} // verus!

verus! {

/// Summary of a node created by `node split`.
#[derive(Debug, Clone)]
pub struct NewNodeSummary {
    pub id: String,
    pub label: String,
    pub node_type: NodeType,
}

/// Data returned by `node split`.
#[derive(Debug, Clone)]
pub struct NodeSplitData {
    pub original_id: String,
    pub new_nodes: Vec<NewNodeSummary>,
    pub tree_id: String,
}

/// The edge with `id` as effect redirected to `first` and `id` as cause
/// replaced by `second`.
pub open spec fn redirect(e: EdgeView, id: Seq<char>, first: Seq<char>, second: Seq<char>) -> EdgeView {
    EdgeView {
        id: e.id,
        from: e.from.map_values(|f: Seq<char>| if f == id { second } else { f }),
        to: if e.to == id { first } else { e.to },
        operator: e.operator,
        weight: e.weight,
        status: e.status,
        logic: e.logic,
        assumptions: e.assumptions,
    }
}

/// The node made by a split: the original's type, tags and observability
/// with a new ID and label, hypothesis, active.
pub open spec fn split_part(o: NodeView, id: Seq<char>, label: Seq<char>) -> NodeView {
    NodeView {
        id,
        node_type: o.node_type,
        label,
        tags: o.tags,
        observable: o.observable,
        epistemic: EpistemicStatus::Hypothesis,
        status: NodeStatus::Active,
        extra: Seq::empty(),
    }
}

fn redirect_edge(e: &Edge, id: &String, first: &String, second: &String) -> (r: Edge)
    ensures r@ == redirect(e@, id@, first@, second@),
{
    let mut r = crate::link::types::clone_edge(e);
    if e.to == *id {
        r.to = first.clone();
    }
    let mut from: Vec<String> = Vec::new();
    let mut j: usize = 0;
    while j < e.from.len()
        invariant
            j <= e.from@.len(),
            from@.len() == j,
            forall|q: int| 0 <= q < j ==> (#[trigger] from@[q])@ == if e.from@[q]@ == id@ { second@ } else { e.from@[q]@ },
        decreases e.from@.len() - j,
    {
        if e.from[j] == *id {
            from.push(second.clone());
        } else {
            from.push(e.from[j].clone());
        }
        j = j + 1;
    }
    r.from = from;
    assert(views(r.from@) =~= e@.from.map_values(|f: Seq<char>| if f == id@ { second@ } else { f }));
    r
}

/// `node split`: replaces `original` in the tree by two new nodes of its
/// type labelled `labels[0]` and `labels[1]`: edges into it now end at the
/// first, edges out of it start at the second. Returns the two nodes for
/// the pool (the caller deletes the original). Refused unless exactly two
/// labels are given and the node is attached; a refusal leaves tree and
/// counters unchanged.
pub fn node_split(tree: &mut Tree, counters: &mut Counters, original: &Node, labels: &Vec<String>)
    -> (r: Result<(Node, Node, NodeSplitData), OutputError>)
    requires
        old(counters).wf(),
        old(counters).room(crate::node::types::spec_prefix(original.node_type), 2),
    ensures
        final(counters).wf(),
        r is Err ==> *final(tree) == *old(tree) && final(counters).values@ == old(counters).values@,
        labels@.len() != 2 ==> err_is(r, "INVALID_ARGS"@, "Split requires exactly 2 labels"@),
        labels@.len() == 2 && !attached(old(tree).nodes@, original.id@)
            ==> err_is(r, "NODE_NOT_IN_TREE"@, not_in_tree_detail(original.id@, old(tree).id@)),
        labels@.len() == 2 && attached(old(tree).nodes@, original.id@) ==> (r matches Ok((a, b, d)) && {
            let key = crate::node::types::spec_prefix(original.node_type);
            let c0 = old(counters).values@;
            let first = nth_id(c0, key, 1);
            let second = nth_id(c0, key, 2);
            &&& a@ == split_part(original@, first, labels@[0]@)
            &&& b@ == split_part(original@, second, labels@[1]@)
            &&& final(counters).values@ == minted(c0, key, 2)
            &&& final(tree)@ == crate::tree::types::reshaped(old(tree)@,
                    filter_seq(old(tree)@.nodes, keep_ref(seq![original.id@]))
                        .push(NodeRefView { node_ref: first, role: None })
                        .push(NodeRefView { node_ref: second, role: None }),
                    old(tree)@.edges.map_values(|e: EdgeView| redirect(e, original.id@, first, second)),
                    old(tree)@.macro_edges)
            &&& d.original_id@ == original.id@
            &&& d.tree_id@ == old(tree).id@
            &&& d.new_nodes@.len() == 2
            &&& d.new_nodes@[0].id@ == first && d.new_nodes@[0].label@ == labels@[0]@
            &&& d.new_nodes@[0].node_type == original.node_type
            &&& d.new_nodes@[1].id@ == second && d.new_nodes@[1].label@ == labels@[1]@
            &&& d.new_nodes@[1].node_type == original.node_type
        }),
{
    if labels.len() != 2 {
        return Err(OutputError::new("INVALID_ARGS", owned("Split requires exactly 2 labels")));
    }
    if !is_attached(&tree.nodes, &original.id) {
        return Err(not_in_tree_error(original.id.as_str(), tree.id.as_str()));
    }
    let prefix = original.node_type.prefix();
    let ghost c0 = counters.values@;
    let first = counters.mint(prefix);
    let second = counters.mint(prefix);
    proof { lemma_mint_chain(c0, prefix@, 1, 1, 1); }
    let a = new_node(first.clone(), original.node_type, labels[0].clone(), clone_strings(&original.tags), original.observable, EpistemicStatus::Hypothesis);
    let b = new_node(second.clone(), original.node_type, labels[1].clone(), clone_strings(&original.tags), original.observable, EpistemicStatus::Hypothesis);
    proof {
        assert(a@.extra =~= Seq::<(Seq<char>, Seq<char>)>::empty());
        assert(b@.extra =~= Seq::<(Seq<char>, Seq<char>)>::empty());
        assert(a@ == split_part(original@, first@, labels@[0]@));
        assert(b@ == split_part(original@, second@, labels@[1]@));
    }
    let ghost idv = seq![original.id@];
    let mut nodes: Vec<NodeRef> = Vec::new();
    let mut i: usize = 0;
    while i < tree.nodes.len()
        invariant
            i <= tree.nodes@.len(),
            idv == seq![original.id@],
            noderef_views(nodes@) == filter_seq(noderef_views(tree.nodes@).take(i as int), keep_ref(idv)),
        decreases tree.nodes@.len() - i,
    {
        proof {
            lemma_filter_step(noderef_views(tree.nodes@), keep_ref(idv), i as int);
            assert(idv.contains(tree.nodes@[i as int].node_ref@) <==> tree.nodes@[i as int].node_ref@ == original.id@) by {
                if idv.contains(tree.nodes@[i as int].node_ref@) {
                    let q = choose|q: int| 0 <= q < idv.len() && idv[q] == tree.nodes@[i as int].node_ref@;
                }
                if tree.nodes@[i as int].node_ref@ == original.id@ { assert(idv[0] == original.id@); }
            }
        }
        let ghost pre = nodes@;
        if tree.nodes[i].node_ref != original.id {
            nodes.push(crate::tree::types::clone_noderef(&tree.nodes[i]));
            proof { assert(noderef_views(nodes@) =~= noderef_views(pre).push(tree.nodes@[i as int]@)); }
        }
        i = i + 1;
    }
    proof { lemma_take_all(noderef_views(tree.nodes@)); }
    let ghost pre_nodes = nodes@;
    nodes.push(NodeRef { node_ref: first.clone(), role: None });
    nodes.push(NodeRef { node_ref: second.clone(), role: None });
    proof {
        assert(noderef_views(nodes@) =~= noderef_views(pre_nodes)
            .push(NodeRefView { node_ref: first@, role: None }).push(NodeRefView { node_ref: second@, role: None }));
    }
    let mut edges: Vec<Edge> = Vec::new();
    let mut k: usize = 0;
    while k < tree.edges.len()
        invariant
            k <= tree.edges@.len(),
            edges@.len() == k,
            forall|q: int| 0 <= q < k ==> (#[trigger] edges@[q])@ == redirect(tree.edges@[q]@, original.id@, first@, second@),
        decreases tree.edges@.len() - k,
    {
        edges.push(redirect_edge(&tree.edges[k], &original.id, &first, &second));
        k = k + 1;
    }
    proof {
        assert(edge_views(edges@) =~= edge_views(tree.edges@).map_values(|e: EdgeView| redirect(e, original.id@, first@, second@)));
    }
    tree.nodes = nodes;
    tree.edges = edges;
    let mut new_nodes: Vec<NewNodeSummary> = Vec::new();
    new_nodes.push(NewNodeSummary { id: first, label: labels[0].clone(), node_type: original.node_type });
    new_nodes.push(NewNodeSummary { id: second, label: labels[1].clone(), node_type: original.node_type });
    Ok((a, b, NodeSplitData { original_id: original.id.clone(), new_nodes, tree_id: tree.id.clone() }))
}

} // verus!
