//! Tree commands: new, list, attach, detach, clone.
use vstd::prelude::*;
use crate::errors::LtpError;
use crate::link::types::{clone_edge, edge_views, Edge, EdgeView, FeedbackEdgeView};
use crate::output::{err_is, quoted_detail, quoted_error, OutputError};
use crate::strutil::{
    ascii_lower, cat2, cat3, cat4, chars_of, is_ascii_seq, clone_opt_string, contains_string, filter_seq, has_id, lemma_filter_step,
    lemma_take_all, owned, spec_to_lowercase, string_from_chars, to_lowercase, views,
};
use crate::tree::types::{
    attached, is_attached, noderef_views, clone_noderef, NodeRef, NodeRefView, Tree, TreeLogic, TreeType, TreeView,
};
use crate::workspace::counters::{minted, nth_id, Counters};

verus! {

/// The tree type named by a lower-case string.
pub open spec fn tree_type_named(l: Seq<char>) -> Option<TreeType> {
    if l == "gt"@ { Some(TreeType::Gt) }
    else if l == "crt"@ { Some(TreeType::Crt) }
    else if l == "ec"@ { Some(TreeType::Ec) }
    else if l == "frt"@ { Some(TreeType::Frt) }
    else if l == "prt"@ { Some(TreeType::Prt) }
    else if l == "tt"@ { Some(TreeType::Tt) }
    else { None }
}

/// The short name of a tree type.
pub open spec fn tree_type_name(t: TreeType) -> Seq<char> {
    match t {
        TreeType::Gt => "gt"@,
        TreeType::Crt => "crt"@,
        TreeType::Ec => "ec"@,
        TreeType::Frt => "frt"@,
        TreeType::Prt => "prt"@,
        TreeType::Tt => "tt"@,
    }
}

/// The logic of a tree type: necessity for evaporating clouds and
/// prerequisite trees, sufficiency for the others.
pub open spec fn spec_logic_for_type(t: TreeType) -> TreeLogic {
    match t {
        TreeType::Ec | TreeType::Prt => TreeLogic::Necessity,
        _ => TreeLogic::Sufficiency,
    }
}

/// Parse a tree type (case-insensitive).
pub fn parse_tree_type(s: &str) -> (r: Result<TreeType, LtpError>)
    ensures
        match tree_type_named(spec_to_lowercase(s@)) {
            Some(t) => r == Ok::<TreeType, LtpError>(t),
            None => r matches Err(LtpError::EcValidation(m)) && m@ == "Unknown tree type: "@ + spec_to_lowercase(s@),
        },
        is_ascii_seq(s@) ==> (match tree_type_named(ascii_lower(s@)) {
            Some(t) => r == Ok::<TreeType, LtpError>(t),
            None => r matches Err(LtpError::EcValidation(m)) && m@ == "Unknown tree type: "@ + ascii_lower(s@),
        }),
{
    let l = to_lowercase(s);
    if l == owned("gt") { Ok(TreeType::Gt) }
    else if l == owned("crt") { Ok(TreeType::Crt) }
    else if l == owned("ec") { Ok(TreeType::Ec) }
    else if l == owned("frt") { Ok(TreeType::Frt) }
    else if l == owned("prt") { Ok(TreeType::Prt) }
    else if l == owned("tt") { Ok(TreeType::Tt) }
    else { Err(LtpError::EcValidation(cat2("Unknown tree type: ", l.as_str()))) }
}

/// The logic of a tree type.
pub fn logic_for_type(t: TreeType) -> (r: TreeLogic)
    ensures r == spec_logic_for_type(t),
{
    match t {
        TreeType::Ec | TreeType::Prt => TreeLogic::Necessity,
        _ => TreeLogic::Sufficiency,
    }
}

/// The short name of a tree type.
pub fn tree_type_str(t: TreeType) -> (r: &'static str)
    ensures r@ == tree_type_name(t),
{
    match t {
        TreeType::Gt => "gt",
        TreeType::Crt => "crt",
        TreeType::Ec => "ec",
        TreeType::Frt => "frt",
        TreeType::Prt => "prt",
        TreeType::Tt => "tt",
    }
}

pub open spec fn is_ascii_alnum(c: char) -> bool {
    ('a' <= c && c <= 'z') || ('A' <= c && c <= 'Z') || ('0' <= c && c <= '9')
}

/// Runs of characters other than ASCII letters and digits become single
/// dashes, with none at either end.
pub open spec fn slug_of(s: Seq<char>) -> Seq<char>
    decreases s.len(),
{
    if s.len() == 0 {
        Seq::empty()
    } else {
        let r = slug_of(s.drop_last());
        let c = s.last();
        if !is_ascii_alnum(c) {
            r
        } else if r.len() > 0 && !is_ascii_alnum(s.drop_last().last()) {
            r + seq!['-', c]
        } else {
            r.push(c)
        }
    }
}

/// The slug of an already lower-cased name: `slug_of`.
pub fn slug_from_lower(lower: &str) -> (r: String)
    ensures r@ == slug_of(lower@),
{
    let cs = chars_of(lower);
    let mut out: Vec<char> = Vec::new();
    let mut i: usize = 0;
    while i < cs.len()
        invariant
            i <= cs@.len(),
            cs@ == lower@,
            out@ == slug_of(cs@.take(i as int)),
        decreases cs@.len() - i,
    {
        let c = cs[i];
        proof {
            assert(cs@.take(i + 1).drop_last() =~= cs@.take(i as int));
            assert(cs@.take(i + 1).last() == c);
        }
        let alnum = ('a' <= c && c <= 'z') || ('A' <= c && c <= 'Z') || ('0' <= c && c <= '9');
        if alnum {
            let prev_alnum = i > 0 && {
                let p = cs[i - 1];
                ('a' <= p && p <= 'z') || ('A' <= p && p <= 'Z') || ('0' <= p && p <= '9')
            };
            proof {
                if i > 0 { assert(cs@.take(i as int).last() == cs@[i - 1]); }
            }
            if out.len() > 0 && !prev_alnum {
                out.push('-');
            }
            out.push(c);
        }
        proof { assert(out@ =~= slug_of(cs@.take(i + 1))); }
        i = i + 1;
    }
    proof { lemma_take_all(cs@); }
    string_from_chars(&out)
}

/// The slug of a name: lower-cased, then `slug_from_lower`.
pub fn slugify(name: &str) -> (r: String)
    ensures
        r@ == slug_of(spec_to_lowercase(name@)),
        is_ascii_seq(name@) ==> r@ == slug_of(ascii_lower(name@)),
{
    let lower = to_lowercase(name);
    slug_from_lower(lower.as_str())
}

/// Data returned by `tree new`.
#[derive(Debug, Clone)]
pub struct TreeNewData {
    pub id: String,
    pub name: String,
    pub tree_type: TreeType,
    pub logic: TreeLogic,
}

/// Summary for tree listing.
#[derive(Debug, Clone)]
pub struct TreeSummary {
    pub id: String,
    pub name: String,
    pub tree_type: TreeType,
    pub logic: TreeLogic,
    pub node_count: usize,
    pub edge_count: usize,
}

/// Data returned by `tree list`.
#[derive(Debug, Clone)]
pub struct TreeListData {
    pub trees: Vec<TreeSummary>,
    pub count: usize,
}

/// Data returned by `tree rm`.
#[derive(Debug, Clone)]
pub struct TreeRmData {
    pub id: String,
}

/// Data returned by `tree attach`.
#[derive(Debug, Clone)]
pub struct TreeAttachData {
    pub tree_id: String,
    pub node_id: String,
    pub role: Option<String>,
}

/// Data returned by `tree detach`.
#[derive(Debug, Clone)]
pub struct TreeDetachData {
    pub tree_id: String,
    pub node_id: String,
    pub edges_removed: usize,
}

/// Data returned by `tree clone`.
#[derive(Debug, Clone)]
pub struct TreeCloneData {
    pub original_id: String,
    pub new_id: String,
    pub new_name: String,
    pub edges_cloned: usize,
}

/// A single diff entry.
#[derive(Debug, Clone)]
pub struct DiffEntry {
    pub id: String,
    pub change: String,
}

/// Data returned by `tree diff`.
#[derive(Debug, Clone)]
pub struct TreeDiffData {
    pub tree_a: String,
    pub tree_b: String,
    pub nodes_added: Vec<String>,
    pub nodes_removed: Vec<String>,
    pub edges_added: Vec<DiffEntry>,
    pub edges_removed: Vec<DiffEntry>,
}

/// A node in the walk result with its immediate context.
#[derive(Debug, Clone)]
pub struct WalkNode {
    pub id: String,
    pub role: Option<String>,
    pub incoming_edges: Vec<String>,
    pub outgoing_edges: Vec<String>,
}

/// Data returned by `tree walk`.
#[derive(Debug, Clone)]
pub struct TreeWalkData {
    pub tree_id: String,
    pub order: String,
    pub nodes: Vec<WalkNode>,
}

/// The ID of a tree of a type and name: `tree-<type>-<slug>`.
pub open spec fn tree_id_for(t: TreeType, name: Seq<char>) -> Seq<char> {
    "tree-"@ + tree_type_name(t) + "-"@ + slug_of(spec_to_lowercase(name))
}

/// Checks the type of `tree new` before the workspace is locked.
pub fn validate_tree_type(type_str: &str) -> (r: Result<TreeType, OutputError>)
    ensures
        match tree_type_named(spec_to_lowercase(type_str@)) {
            Some(t) => r matches Ok(x) && x == t,
            None => err_is(r, "INVALID_TREE_TYPE"@, "EC validation: Unknown tree type: "@ + spec_to_lowercase(type_str@)),
        },
{
    match parse_tree_type(type_str) {
        Ok(t) => Ok(t),
        Err(e) => {
            let m = e.message();
            proof {
                reveal_strlit("EC validation: ");
                reveal_strlit("Unknown tree type: ");
                reveal_strlit("EC validation: Unknown tree type: ");
                assert(m@ =~= "EC validation: Unknown tree type: "@ + spec_to_lowercase(type_str@));
            }
            Err(OutputError::new("INVALID_TREE_TYPE", m))
        },
    }
}

/// `tree new`: an empty tree of the type and name, with the logic of its
/// type and the ID `tree-<type>-<slug>`; refused when a tree with that ID
/// exists.
pub fn tree_new(tree_type: TreeType, name: &str, existing: &Vec<String>) -> (r: Result<(Tree, TreeNewData), OutputError>)
    ensures
        ({
            let id = tree_id_for(tree_type, name@);
            &&& has_id(existing@, id) ==> err_is(r, "TREE_ALREADY_EXISTS"@, "Tree with id '"@ + id + "' already exists"@)
            &&& !has_id(existing@, id) ==> (r matches Ok((t, d)) && {
                &&& t@ == (TreeView {
                        id, name: name@, tree_type, logic: spec_logic_for_type(tree_type),
                        nodes: Seq::empty(), edges: Seq::empty(), macro_edges: Seq::empty(),
                        feedback_edges: Seq::empty(), nbr_branches: Seq::empty(),
                    })
                &&& d.id@ == id && d.name@ == name@ && d.tree_type == tree_type && d.logic == spec_logic_for_type(tree_type)
            })
        }),
{
    let slug = slugify(name);
    let id = cat4("tree-", tree_type_str(tree_type), "-", slug.as_str());
    if contains_string(existing, &id) {
        return Err(OutputError::new("TREE_ALREADY_EXISTS", cat3("Tree with id '", id.as_str(), "' already exists")));
    }
    let logic = logic_for_type(tree_type);
    let t = Tree {
        id: id.clone(),
        name: owned(name),
        tree_type,
        logic,
        nodes: Vec::new(),
        edges: Vec::new(),
        macro_edges: Vec::new(),
        feedback_edges: Vec::new(),
        nbr_branches: Vec::new(),
    };
    proof {
        assert(t@.nodes =~= Seq::<NodeRefView>::empty());
        assert(t@.edges =~= Seq::<EdgeView>::empty());
        assert(t@.macro_edges =~= Seq::<crate::tree::types::MacroEdgeView>::empty());
        assert(t@.feedback_edges =~= Seq::<FeedbackEdgeView>::empty());
        assert(t@.nbr_branches =~= Seq::<crate::tree::types::NbrBranchView>::empty());
    }
    Ok((t, TreeNewData { id, name: owned(name), tree_type, logic }))
}

/// `tree list`: a summary of each loaded tree, in order.
pub fn tree_list(trees: &Vec<Tree>) -> (r: TreeListData)
    ensures
        r.count == r.trees@.len(),
        r.trees@.len() == trees@.len(),
        forall|k: int| 0 <= k < trees@.len() ==> {
            let s = #[trigger] r.trees@[k];
            let t = trees@[k];
            &&& s.id@ == t.id@ && s.name@ == t.name@ && s.tree_type == t.tree_type && s.logic == t.logic
            &&& s.node_count == t.nodes@.len() && s.edge_count == t.edges@.len()
        },
{
    let mut out: Vec<TreeSummary> = Vec::new();
    let mut i: usize = 0;
    while i < trees.len()
        invariant
            i <= trees@.len(),
            out@.len() == i,
            forall|k: int| 0 <= k < i ==> {
                let s = #[trigger] out@[k];
                let t = trees@[k];
                &&& s.id@ == t.id@ && s.name@ == t.name@ && s.tree_type == t.tree_type && s.logic == t.logic
                &&& s.node_count == t.nodes@.len() && s.edge_count == t.edges@.len()
            },
        decreases trees@.len() - i,
    {
        let t = &trees[i];
        out.push(TreeSummary {
            id: t.id.clone(),
            name: t.name.clone(),
            tree_type: t.tree_type,
            logic: t.logic,
            node_count: t.nodes.len(),
            edge_count: t.edges.len(),
        });
        i = i + 1;
    }
    let count = out.len();
    TreeListData { trees: out, count }
}

/// Checks the node of `tree attach` before the tree is loaded: it must be
/// in the pool.
pub fn validate_attach(pool: &Vec<String>, node_id: &str) -> (r: Result<(), OutputError>)
    ensures
        has_id(pool@, node_id@) ==> r is Ok,
        !has_id(pool@, node_id@) ==> err_is(r, "NODE_NOT_FOUND"@, quoted_detail("Node"@, node_id@, " not found in pool"@)),
{
    if contains_string(pool, &owned(node_id)) {
        Ok(())
    } else {
        Err(quoted_error("NODE_NOT_FOUND", "Node", node_id, " not found in pool"))
    }
}

pub open spec fn opt_str_v(o: Option<&str>) -> Option<Seq<char>> {
    match o { Some(s) => Some(s@), None => None }
}

/// `tree attach`: the node joins the tree with its role, unless it is
/// attached already.
pub fn tree_attach(tree: &mut Tree, node_id: &str, role: Option<&str>) -> (r: Result<TreeAttachData, OutputError>)
    ensures
        r is Err ==> *final(tree) == *old(tree),
        attached(old(tree).nodes@, node_id@)
            ==> err_is(r, "NODE_ALREADY_ATTACHED"@, quoted_detail("Node"@, node_id@, " is already in tree '"@ + old(tree).id@ + "'"@)),
        !attached(old(tree).nodes@, node_id@) ==> (r matches Ok(d) && {
            &&& final(tree)@ == (TreeView {
                    nodes: old(tree)@.nodes.push(NodeRefView { node_ref: node_id@, role: opt_str_v(role) }),
                    ..old(tree)@
                })
            &&& d.tree_id@ == old(tree).id@ && d.node_id@ == node_id@
            &&& crate::link::types::opt_view(d.role) == opt_str_v(role)
        }),
{
    let nid = owned(node_id);
    if is_attached(&tree.nodes, &nid) {
        return Err(quoted_error("NODE_ALREADY_ATTACHED", "Node", node_id, cat3(" is already in tree '", tree.id.as_str(), "'").as_str()));
    }
    let role_s: Option<String> = match role { Some(r) => Some(owned(r)), None => None };
    let ghost pre = tree.nodes@;
    tree.nodes.push(NodeRef { node_ref: nid.clone(), role: clone_opt_string(&role_s) });
    proof {
        assert(noderef_views(tree.nodes@) =~= noderef_views(pre).push(NodeRefView { node_ref: node_id@, role: opt_str_v(role) }));
    }
    Ok(TreeAttachData { tree_id: tree.id.clone(), node_id: nid, role: role_s })
}

pub open spec fn not_ref(id: Seq<char>) -> spec_fn(NodeRefView) -> bool {
    |n: NodeRefView| n.node_ref != id
}

pub open spec fn not_at(id: Seq<char>) -> spec_fn(EdgeView) -> bool {
    |e: EdgeView| !e.from.contains(id) && e.to != id
}

/// `tree detach`: the node leaves the tree with every edge at it; reports
/// how many edges went.
pub fn tree_detach(tree: &mut Tree, node_id: &str) -> (r: TreeDetachData)
    ensures
        final(tree)@ == (TreeView {
            nodes: filter_seq(old(tree)@.nodes, not_ref(node_id@)),
            edges: filter_seq(old(tree)@.edges, not_at(node_id@)),
            ..old(tree)@
        }),
        r.tree_id@ == old(tree).id@ && r.node_id@ == node_id@,
        r.edges_removed == old(tree)@.edges.len() - filter_seq(old(tree)@.edges, not_at(node_id@)).len(),
{
    let nid = owned(node_id);
    let mut nodes: Vec<NodeRef> = Vec::new();
    let mut i: usize = 0;
    while i < tree.nodes.len()
        invariant
            i <= tree.nodes@.len(),
            nid@ == node_id@,
            noderef_views(nodes@) == filter_seq(noderef_views(tree.nodes@).take(i as int), not_ref(node_id@)),
        decreases tree.nodes@.len() - i,
    {
        proof { lemma_filter_step(noderef_views(tree.nodes@), not_ref(node_id@), i as int); }
        let ghost pre = nodes@;
        if tree.nodes[i].node_ref != nid {
            nodes.push(clone_noderef(&tree.nodes[i]));
            proof { assert(noderef_views(nodes@) =~= noderef_views(pre).push(tree.nodes@[i as int]@)); }
        }
        i = i + 1;
    }
    let mut edges: Vec<Edge> = Vec::new();
    let mut k: usize = 0;
    while k < tree.edges.len()
        invariant
            k <= tree.edges@.len(),
            nid@ == node_id@,
            edge_views(edges@) == filter_seq(edge_views(tree.edges@).take(k as int), not_at(node_id@)),
        decreases tree.edges@.len() - k,
    {
        proof {
            lemma_filter_step(edge_views(tree.edges@), not_at(node_id@), k as int);
            crate::strutil::lemma_has_id_views(tree.edges@[k as int].from@, node_id@);
        }
        let e = &tree.edges[k];
        let ghost pre = edges@;
        if !contains_string(&e.from, &nid) && e.to != nid {
            edges.push(clone_edge(e));
            proof { assert(edge_views(edges@) =~= edge_views(pre).push(e@)); }
        }
        k = k + 1;
    }
    proof {
        lemma_take_all(noderef_views(tree.nodes@));
        lemma_take_all(edge_views(tree.edges@));
        crate::strutil::lemma_filter_len(edge_views(tree.edges@), not_at(node_id@));
    }
    let removed = tree.edges.len() - edges.len();
    tree.nodes = nodes;
    tree.edges = edges;
    TreeDetachData { tree_id: tree.id.clone(), node_id: nid, edges_removed: removed }
}

/// The edge with another ID.
pub open spec fn renamed(e: EdgeView, id: Seq<char>) -> EdgeView {
    EdgeView { id, ..e }
}

/// `tree clone`: a copy named `new_name` with the ID `tree-<type>-<slug>`:
/// the same nodes and feedback edges, each edge copied under the next
/// `LINK` ID (in order), no long arrows and no negative branches.
pub fn tree_clone(original: &Tree, counters: &mut Counters, new_name: &str) -> (r: (Tree, TreeCloneData))
    requires
        old(counters).wf(),
        old(counters).room("LINK"@, original.edges@.len() as nat),
    ensures
        final(counters).wf(),
        original.edges@.len() > 0 ==> final(counters).values@ == minted(old(counters).values@, "LINK"@, original.edges@.len() as nat),
        original.edges@.len() == 0 ==> final(counters).values@ == old(counters).values@,
        ({
            let id = tree_id_for(original.tree_type, new_name@);
            &&& r.0@ == (TreeView {
                    id, name: new_name@, tree_type: original.tree_type, logic: original.logic,
                    nodes: original@.nodes,
                    edges: Seq::new(original@.edges.len(), |k: int|
                        renamed(original@.edges[k], nth_id(old(counters).values@, "LINK"@, (k + 1) as nat))),
                    macro_edges: Seq::empty(),
                    feedback_edges: original@.feedback_edges,
                    nbr_branches: Seq::empty(),
                })
            &&& r.1.original_id@ == original.id@ && r.1.new_id@ == id && r.1.new_name@ == new_name@
            &&& r.1.edges_cloned == original.edges@.len()
        }),
{
    let slug = slugify(new_name);
    let id = cat4("tree-", tree_type_str(original.tree_type), "-", slug.as_str());
    let ghost c0 = counters.values@;
    let mut edges: Vec<Edge> = Vec::new();
    let mut k: usize = 0;
    while k < original.edges.len()
        invariant
            k <= original.edges@.len(),
            counters.wf(),
            crate::workspace::counters::count_of(c0, "LINK"@) + original.edges@.len() <= u64::MAX,
            k == 0 ==> counters.values@ == c0,
            k > 0 ==> counters.values@ == minted(c0, "LINK"@, k as nat),
            edges@.len() == k,
            forall|q: int| 0 <= q < k ==> (#[trigger] edges@[q])@ == renamed(original@.edges[q], nth_id(c0, "LINK"@, (q + 1) as nat)),
        decreases original.edges@.len() - k,
    {
        proof { crate::workspace::counters::lemma_mint_chain(c0, "LINK"@, k as nat, 1, 1); }
        let lid = counters.mint("LINK");
        let mut e = clone_edge(&original.edges[k]);
        e.id = lid;
        edges.push(e);
        k = k + 1;
    }
    let mut nodes: Vec<NodeRef> = Vec::new();
    let mut i: usize = 0;
    while i < original.nodes.len()
        invariant
            i <= original.nodes@.len(),
            nodes@.len() == i,
            forall|q: int| 0 <= q < i ==> (#[trigger] nodes@[q])@ == original.nodes@[q]@,
        decreases original.nodes@.len() - i,
    {
        nodes.push(clone_noderef(&original.nodes[i]));
        i = i + 1;
    }
    let n_edges = edges.len();
    let t = Tree {
        id: id.clone(),
        name: owned(new_name),
        tree_type: original.tree_type,
        logic: original.logic,
        nodes,
        edges,
        macro_edges: Vec::new(),
        feedback_edges: crate::link::types::clone_feedbacks(&original.feedback_edges),
        nbr_branches: Vec::new(),
    };
    proof {
        assert(t@.nodes =~= original@.nodes);
        assert(t@.edges =~= Seq::new(original@.edges.len(), |q: int|
            renamed(original@.edges[q], nth_id(c0, "LINK"@, (q + 1) as nat))));
        assert(t@.macro_edges =~= Seq::<crate::tree::types::MacroEdgeView>::empty());
        assert(t@.nbr_branches =~= Seq::<crate::tree::types::NbrBranchView>::empty());
    }
    (t, TreeCloneData { original_id: original.id.clone(), new_id: id, new_name: owned(new_name), edges_cloned: n_edges })
}

} // verus!
