use ltp_engine::assumptions::{assume_add, assume_edit, assume_list, assume_move, assume_rm, invalidate};
use ltp_engine::link::advanced::link_reverse;
use ltp_engine::link::commands::{link_connect, link_disconnect, link_feedback, parse_operator};
use ltp_engine::link::types::{AssumptionStatus, EdgeStatus, FeedbackLoopType, Operator};
use ltp_engine::nbr::{nbr_add, nbr_inspect, nbr_list, nbr_rm};
use ltp_engine::node::commands::{node_add, node_edit, node_list, node_search};
use ltp_engine::node::types::{EpistemicStatus, NodeType};
use ltp_engine::path::{path_collapse, path_explode};
use ltp_engine::trace::{link_find, trace};
use ltp_engine::tree::commands::{tree_attach, tree_clone, tree_detach, tree_new};
use ltp_engine::tree::compare::{sort_strings, tree_diff};
use ltp_engine::tree::types::{NodeRef, Tree, TreeLogic, TreeType};
use ltp_engine::workspace::counters::Counters;

fn strs(v: &[&str]) -> Vec<String> {
    v.iter().map(|s| s.to_string()).collect()
}

fn tree(nodes: &[&str]) -> Tree {
    Tree {
        id: "TREE-001".to_string(),
        name: "T".to_string(),
        tree_type: TreeType::Crt,
        logic: TreeLogic::Sufficiency,
        nodes: nodes.iter().map(|n| NodeRef { node_ref: n.to_string(), role: None }).collect(),
        edges: vec![],
        macro_edges: vec![],
        feedback_edges: vec![],
        nbr_branches: vec![],
    }
}

fn connect(t: &mut Tree, c: &mut Counters, pool: &Vec<String>, from: &[&str], to: &[&str]) -> Vec<String> {
    let (d, _) = link_connect(t, c, pool, &strs(from), &strs(to), None, None).unwrap();
    d.created_links
}

#[test]
fn link_connect_mints_links() {
    let pool = strs(&["A", "B", "C"]);
    let mut t = tree(&["A", "B", "C"]);
    let mut c = Counters::new_zeroed();
    assert_eq!(connect(&mut t, &mut c, &pool, &["A"], &["B"]), strs(&["LINK-001"]));
    assert_eq!(connect(&mut t, &mut c, &pool, &["A", "B"], &["C"]), strs(&["LINK-002"]));
    assert_eq!(t.edges[1].operator, Operator::And);
    assert_eq!(t.edges.len(), 2);
}

#[test]
fn link_connect_several_effects_makes_single_links() {
    let pool = strs(&["A", "B", "C"]);
    let mut t = tree(&["A", "B", "C"]);
    let mut c = Counters::new_zeroed();
    assert_eq!(connect(&mut t, &mut c, &pool, &["A"], &["B", "C"]), strs(&["LINK-001", "LINK-002"]));
    assert!(t.edges.iter().all(|e| e.operator == Operator::Single));
}

#[test]
fn link_connect_refuses_cycle_and_keeps_tree() {
    let pool = strs(&["A", "B"]);
    let mut t = tree(&["A", "B"]);
    let mut c = Counters::new_zeroed();
    connect(&mut t, &mut c, &pool, &["A"], &["B"]);
    let e = link_connect(&mut t, &mut c, &pool, &strs(&["B"]), &strs(&["A"]), None, None).unwrap_err();
    assert_eq!(e.code, "CIRCULAR_DEPENDENCY_DETECTED");
    assert_eq!(e.detail, "circular dependency detected in tree TREE-001");
    assert_eq!(t.edges.len(), 1);
}

#[test]
fn link_connect_bad_ends_and_operator() {
    let pool = strs(&["A", "B"]);
    let mut t = tree(&["A"]);
    let mut c = Counters::new_zeroed();
    let e = link_connect(&mut t, &mut c, &pool, &strs(&["X"]), &strs(&["A"]), None, None).unwrap_err();
    assert_eq!(e.code, "REFERENTIAL_INTEGRITY_VIOLATION");
    assert_eq!(e.detail, "Node 'X' not found in pool");
    let e = link_connect(&mut t, &mut c, &pool, &strs(&["A"]), &strs(&["B"]), None, None).unwrap_err();
    assert_eq!(e.code, "NODE_NOT_IN_TREE");
    let mut t2 = tree(&["A", "B"]);
    let e = link_connect(&mut t2, &mut c, &pool, &strs(&["A"]), &strs(&["B"]), Some("nand"), None).unwrap_err();
    assert_eq!(e.code, "INVALID_OPERATOR");
    assert_eq!(e.detail, "Unknown operator: nand");
    assert_eq!(c.values.get("LINK"), Some(&0));
    assert!(t2.edges.is_empty());
}

#[test]
fn link_connect_mag_without_weight_warns() {
    let pool = strs(&["A", "B"]);
    let mut t = tree(&["A", "B"]);
    let mut c = Counters::new_zeroed();
    let (_, w) = link_connect(&mut t, &mut c, &pool, &strs(&["A"]), &strs(&["B"]), Some("mag"), None).unwrap();
    assert_eq!(w.len(), 1);
    assert_eq!(w[0].code, "MAG_WEIGHT_MISSING");
    assert_eq!(parse_operator("xor"), Some(Operator::Xor));
    assert_eq!(parse_operator("nope"), None);
}

#[test]
fn link_disconnect_removes_listed() {
    let pool = strs(&["A", "B", "C"]);
    let mut t = tree(&["A", "B", "C"]);
    let mut c = Counters::new_zeroed();
    connect(&mut t, &mut c, &pool, &["A"], &["B"]);
    connect(&mut t, &mut c, &pool, &["B"], &["C"]);
    let d = link_disconnect(&mut t, &strs(&["LINK-001", "LINK-404"]));
    assert_eq!(d.removed_links, strs(&["LINK-001"]));
    assert_eq!(t.edges.len(), 1);
    assert_eq!(t.edges[0].id, "LINK-002");
}

#[test]
fn link_reverse_swaps_and_requires_force() {
    let pool = strs(&["A", "B"]);
    let mut t = tree(&["A", "B"]);
    let mut c = Counters::new_zeroed();
    connect(&mut t, &mut c, &pool, &["A"], &["B"]);
    let d = link_reverse(&mut t, "LINK-001", false).unwrap();
    assert_eq!(d.new_from, strs(&["B"]));
    assert_eq!(d.new_to, "A");
    assume_add(&mut t, &mut c, "LINK-001", "because").unwrap();
    let e = link_reverse(&mut t, "LINK-001", false).unwrap_err();
    assert_eq!(e.code, "REVERSE_REQUIRES_FORCE");
    link_reverse(&mut t, "LINK-001", true).unwrap();
    assert_eq!(t.edges[0].assumptions[0].status, AssumptionStatus::NeedsReview);
    assert_eq!(link_reverse(&mut t, "LINK-9", false).unwrap_err().code, "LINK_NOT_FOUND");
}

#[test]
fn link_reverse_twice_restores_edges() {
    let pool = strs(&["A", "B", "C"]);
    let mut t = tree(&["A", "B", "C"]);
    let mut c = Counters::new_zeroed();
    connect(&mut t, &mut c, &pool, &["A"], &["B"]);
    connect(&mut t, &mut c, &pool, &["B"], &["C"]);
    let before: Vec<(String, Vec<String>, String)> =
        t.edges.iter().map(|e| (e.id.clone(), e.from.clone(), e.to.clone())).collect();
    for force in [false, true] {
        link_reverse(&mut t, "LINK-002", force).unwrap();
        assert_eq!(t.edges[1].from, strs(&["C"]));
        assert_eq!(t.edges[1].to, "B");
        link_reverse(&mut t, "LINK-002", force).unwrap();
        let after: Vec<(String, Vec<String>, String)> =
            t.edges.iter().map(|e| (e.id.clone(), e.from.clone(), e.to.clone())).collect();
        assert_eq!(after, before);
        assert!(t.edges.iter().all(|e| e.assumptions.is_empty()));
    }
}

#[test]
fn link_feedback_adds_feedback_edge() {
    let mut t = tree(&["A", "B"]);
    let mut c = Counters::new_zeroed();
    let d = link_feedback(&mut t, &mut c, "B", "A", FeedbackLoopType::Negative, Some("dampens"));
    assert_eq!(d.id, "FB-001");
    assert_eq!(t.feedback_edges.len(), 1);
    assert_eq!(t.feedback_edges[0].label, Some("dampens".to_string()));
}

#[test]
fn assumptions_lifecycle() {
    let pool = strs(&["A", "B", "C"]);
    let mut t = tree(&["A", "B", "C"]);
    let mut c = Counters::new_zeroed();
    connect(&mut t, &mut c, &pool, &["A"], &["B"]);
    connect(&mut t, &mut c, &pool, &["B"], &["C"]);
    let d = assume_add(&mut t, &mut c, "LINK-001", "Demand is stable").unwrap();
    assert_eq!(d.id, "ASM-001");
    assert_eq!(assume_add(&mut t, &mut c, "LINK-404", "x").unwrap_err().code, "LINK_NOT_FOUND");
    assume_edit(&mut t, "ASM-001", "Demand is seasonal").unwrap();
    assert_eq!(t.edges[0].assumptions[0].text, "Demand is seasonal");
    let m = assume_move(&mut t, "ASM-001", "LINK-002").unwrap();
    assert_eq!(m.from_link, "LINK-001");
    assert!(t.edges[0].assumptions.is_empty());
    assert_eq!(t.edges[1].assumptions.len(), 1);
    let l = assume_list(&t, None);
    assert_eq!(l.assumptions.len(), 1);
    assert_eq!(l.assumptions[0].link_id, "LINK-002");
    assume_rm(&mut t, "ASM-001").unwrap();
    assert_eq!(assume_rm(&mut t, "ASM-001").unwrap_err().code, "ASSUMPTION_NOT_FOUND");
}

#[test]
fn invalidate_twice_changes_nothing_more() {
    let pool = strs(&["A", "B"]);
    let mut t = tree(&["A", "B"]);
    let mut c = Counters::new_zeroed();
    connect(&mut t, &mut c, &pool, &["A"], &["B"]);
    assume_add(&mut t, &mut c, "LINK-001", "x").unwrap();
    let (d, inj, _) = invalidate(&mut t, &mut c, "LINK-001", "ASM-001", Some("New policy")).unwrap();
    assert!(d.changed);
    assert_eq!(d.link_status, EdgeStatus::Broken);
    assert_eq!(d.injection_id, Some("INJ-001".to_string()));
    assert_eq!(inj.unwrap().node_type, NodeType::Inj);
    assert_eq!(t.edges[0].status, EdgeStatus::Broken);
    let before = t.edges[0].assumptions[0].status;
    let (d2, inj2, w2) = invalidate(&mut t, &mut c, "LINK-001", "ASM-001", Some("Again")).unwrap();
    assert!(!d2.changed);
    assert!(inj2.is_none());
    assert_eq!(w2[0].code, "ALREADY_INVALIDATED");
    assert_eq!(t.edges[0].assumptions[0].status, before);
    assert_eq!(c.values.get("INJ"), Some(&1));
}

#[test]
fn nodes_add_edit_list_search() {
    let mut c = Counters::new_zeroed();
    let (n1, d1, w1) = node_add(&mut c, NodeType::Ude, "Late deliveries because of traffic", None, None, EpistemicStatus::Fact);
    assert_eq!(n1.id, "UDE-001");
    assert_eq!(d1.observable, true);
    assert_eq!(w1.len(), 1);
    let (mut n2, _, _) = node_add(&mut c, NodeType::Rc, "Old fleet", Some(strs(&["ops"])), Some(false), EpistemicStatus::Hypothesis);
    assert_eq!(n2.id, "RC-001");
    let (ed, _) = node_edit(&mut n2, Some("Aging fleet"), Some("fleet"), Some("ops"), None, None);
    assert_eq!(ed.label, "Aging fleet");
    assert_eq!(ed.tags, strs(&["fleet"]));
    let nodes = vec![n1, n2];
    let l = node_list(&nodes, Some(&strs(&["rc"])), None, None);
    assert_eq!(l.count, 1);
    assert_eq!(l.nodes[0].id, "RC-001");
    let s = node_search(&nodes, "FLEET");
    assert_eq!(s.count, 1);
}

#[test]
fn trees_new_attach_detach_clone_diff() {
    let (mut t, d) = tree_new(TreeType::Crt, "Current Reality", &vec![]).unwrap();
    assert_eq!(d.id, t.id);
    assert_eq!(t.logic, TreeLogic::Sufficiency);
    assert!(tree_new(TreeType::Crt, "Current Reality", &vec![t.id.clone()]).is_err());
    tree_attach(&mut t, "UDE-001", Some("effect")).unwrap();
    tree_attach(&mut t, "RC-001", None).unwrap();
    assert!(tree_attach(&mut t, "RC-001", None).is_err());
    let mut c = Counters::new_zeroed();
    let pool = strs(&["UDE-001", "RC-001"]);
    connect(&mut t, &mut c, &pool, &["RC-001"], &["UDE-001"]);
    let (copy, cd) = tree_clone(&t, &mut c, "Copy");
    assert_eq!(copy.edges.len(), 1);
    assert_eq!(copy.edges[0].id, "LINK-002");
    assert_eq!(cd.new_id, copy.id);
    let mut t3 = copy.clone();
    tree_detach(&mut t3, "RC-001");
    assert_eq!(t3.nodes.len(), 1);
    let diff = tree_diff(&t, &t3);
    assert_eq!(diff.nodes_removed, strs(&["RC-001"]));
    assert!(diff.nodes_added.is_empty());
    assert_eq!(diff.edges_removed.len(), 1);
    assert_eq!(diff.edges_removed[0].id, "LINK-001");
    assert_eq!(diff.edges_removed[0].change, "removed");
}

#[test]
fn diff_compares_edges_by_signature() {
    let pool = strs(&["A", "B", "C"]);
    let mut c = Counters::new_zeroed();
    let mut a = tree(&["A", "B", "C"]);
    connect(&mut a, &mut c, &pool, &["B", "A"], &["C"]);
    let mut b = tree(&["A", "B", "C"]);
    connect(&mut b, &mut c, &pool, &["A", "B"], &["C"]);
    let d = tree_diff(&a, &b);
    assert!(d.edges_added.is_empty());
    assert!(d.edges_removed.is_empty());
    assert_eq!(sort_strings(&strs(&["b", "a", "b"])), strs(&["a", "b", "b"]));
}

#[test]
fn negative_branches() {
    let pool = strs(&["INJ-001", "A"]);
    let mut t = tree(&["INJ-001"]);
    let mut c = Counters::new_zeroed();
    let d = nbr_add(&mut t, &mut c, &pool, "INJ-001", None).unwrap();
    assert_eq!(d.nbr_id, "NBR-001");
    assert_eq!(nbr_add(&mut t, &mut c, &pool, "A", None).unwrap_err().code, "NODE_NOT_IN_TREE");
    let l = nbr_list(&t);
    assert_eq!(l.nbr_count, 1);
    let i = nbr_inspect(&t, "NBR-001").unwrap();
    assert_eq!(i.source_node, "INJ-001");
    let r = nbr_rm(&mut t, "NBR-001").unwrap();
    assert_eq!(r.edges_removed, 0);
    assert_eq!(nbr_rm(&mut t, "NBR-001").unwrap_err().code, "NBR_NOT_FOUND");
}

#[test]
fn collapse_then_explode() {
    let pool = strs(&["A", "B", "C"]);
    let mut t = tree(&["A", "B", "C"]);
    let mut c = Counters::new_zeroed();
    connect(&mut t, &mut c, &pool, &["A"], &["B"]);
    connect(&mut t, &mut c, &pool, &["B"], &["C"]);
    let d = path_collapse(&mut t, &mut c, "A", "C", "A leads to C").unwrap();
    assert_eq!(d.macro_edge_id, "MACRO-001");
    assert_eq!(d.interior_nodes, strs(&["B"]));
    assert_eq!(d.interior_links.len(), 2);
    assert_eq!(t.macro_edges.len(), 1);
    assume_add(&mut t, &mut c, "LINK-001", "hidden step").unwrap();
    let (node, ex) = path_explode(&mut t, &mut c, "LINK-001", "ASM-001", "Explicit step").unwrap();
    assert_eq!(node.id, ex.created_node_id);
    assert_eq!(ex.created_links.len(), 2);
    assert_eq!(ex.original_link_removed, "LINK-001");
}

#[test]
fn trace_and_find() {
    let pool = strs(&["A", "B", "C"]);
    let mut t = tree(&["A", "B", "C"]);
    let mut c = Counters::new_zeroed();
    connect(&mut t, &mut c, &pool, &["A"], &["B"]);
    connect(&mut t, &mut c, &pool, &["B"], &["C"]);
    let d = trace(&t, &pool, "A", "downstream", None, false, false).unwrap();
    let chain: Vec<&str> = d.chain.iter().map(|e| e.node.as_str()).collect();
    assert_eq!(chain[0], "A");
    assert!(chain.contains(&"C"));
    assert!(trace(&t, &pool, "Z", "downstream", None, false, false).is_err());
    let f = link_find(&t, "A", "B");
    assert_eq!(f.links.len(), 1);
}

#[test]
fn trace_chain_is_breadth_first_in_edge_order() {
    let pool = strs(&["A", "B", "C"]);
    let mut t = tree(&["A", "B", "C"]);
    let mut c = Counters::new_zeroed();
    connect(&mut t, &mut c, &pool, &["A"], &["B"]);
    connect(&mut t, &mut c, &pool, &["A"], &["C"]);
    connect(&mut t, &mut c, &pool, &["B"], &["C"]);
    let entry = |e: &ltp_engine::trace::TraceEntry| (e.node.clone(), e.link_to_next.as_ref().map(|l| l.id.clone()));
    let full = trace(&t, &pool, "A", "downstream", None, false, false).unwrap();
    let got: Vec<(String, Option<String>)> = full.chain.iter().map(entry).collect();
    assert_eq!(
        got,
        vec![
            ("A".to_string(), Some("LINK-001".to_string())),
            ("A".to_string(), Some("LINK-002".to_string())),
            ("B".to_string(), Some("LINK-003".to_string())),
            ("C".to_string(), None),
        ]
    );
    let limited = trace(&t, &pool, "A", "downstream", Some(1), false, false).unwrap();
    let got: Vec<(String, Option<String>)> = limited.chain.iter().map(entry).collect();
    assert_eq!(
        got,
        vec![
            ("A".to_string(), Some("LINK-001".to_string())),
            ("A".to_string(), Some("LINK-002".to_string())),
            ("B".to_string(), None),
            ("C".to_string(), None),
        ]
    );
    let up = trace(&t, &pool, "C", "upstream", None, false, false).unwrap();
    let got: Vec<(String, Option<String>)> = up.chain.iter().map(entry).collect();
    assert_eq!(
        got,
        vec![
            ("C".to_string(), Some("LINK-002".to_string())),
            ("C".to_string(), Some("LINK-003".to_string())),
            ("A".to_string(), None),
            ("B".to_string(), Some("LINK-001".to_string())),
        ]
    );
}
