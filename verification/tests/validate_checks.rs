use ltp_engine::errors::LtpError;
use ltp_engine::link::types::{Assumption, AssumptionStatus, Edge, EdgeStatus, Logic, Operator};
use ltp_engine::node::types::{EpistemicStatus, Node, NodeMetadata, NodeStatus, NodeType};
use ltp_engine::output::ContextValue;
use ltp_engine::tree::types::{MacroAssumption, MacroEdge, NodeRef, Tree, TreeLogic, TreeType};
use ltp_engine::validate::check_dag;
use ltp_engine::validate::clr::{
    lint_clr2, lint_clr4_5_excessive_and, lint_clr4_insufficiency, lint_clr6_type_inversion, lint_clr7_intangible,
};
use ltp_engine::validate::ec::check_ec_rules;
use ltp_engine::validate::integrity::check_integrity;
use ltp_engine::validate::macro_edge::check_macro_edges;
use ltp_engine::validate::orphans::check_orphans;

fn make_edge(id: &str, from: Vec<&str>, to: &str) -> Edge {
    make_edge_op(id, from, to, Operator::Single)
}

fn make_edge_op(id: &str, from: Vec<&str>, to: &str, op: Operator) -> Edge {
    Edge {
        id: id.to_string(),
        from: from.into_iter().map(String::from).collect(),
        to: to.to_string(),
        operator: op,
        weight: None,
        status: EdgeStatus::Active,
        logic: Logic::Sufficiency,
        assumptions: vec![],
    }
}

fn node_ref(id: &str) -> NodeRef {
    NodeRef { node_ref: id.to_string(), role: None }
}

fn role_ref(id: &str, role: Option<&str>) -> NodeRef {
    NodeRef { node_ref: id.to_string(), role: role.map(String::from) }
}

fn make_node(id: &str, node_type: NodeType, observable: bool) -> Node {
    Node {
        id: id.to_string(),
        node_type,
        label: "Test node".to_string(),
        tags: vec![],
        observable,
        epistemic: EpistemicStatus::Hypothesis,
        metadata: NodeMetadata { status: NodeStatus::Active, extra: vec![] },
    }
}

fn pool(ids: &[&str]) -> Vec<String> {
    ids.iter().map(|s| s.to_string()).collect()
}

// ---- DAG ----

#[test]
fn valid_dag_passes() {
    let edges = vec![make_edge("L1", vec!["A"], "B"), make_edge("L2", vec!["B"], "C")];
    assert!(check_dag(&edges, "test-tree").is_ok());
}

#[test]
fn cycle_detected_with_path() {
    let edges = vec![
        make_edge("L1", vec!["A"], "B"),
        make_edge("L2", vec!["B"], "C"),
        make_edge("L3", vec!["C"], "A"),
    ];
    let err = check_dag(&edges, "test-tree").unwrap_err();
    match err {
        LtpError::CircularDependencyDetected { tree_id, cycle_path } => {
            assert_eq!(tree_id, "test-tree");
            assert!(cycle_path.len() >= 3);
            assert_eq!(cycle_path.first(), cycle_path.last());
        }
        _ => panic!("Expected CircularDependencyDetected"),
    }
}

#[test]
fn cycle_in_subgraph_reports_correct_nodes() {
    let edges = vec![
        make_edge("L1", vec!["X"], "A"),
        make_edge("L2", vec!["A"], "B"),
        make_edge("L3", vec!["B"], "C"),
        make_edge("L4", vec!["C"], "B"),
    ];
    let err = check_dag(&edges, "test-tree").unwrap_err();
    match err {
        LtpError::CircularDependencyDetected { cycle_path, .. } => {
            assert!(cycle_path.contains(&"B".to_string()));
            assert!(cycle_path.contains(&"C".to_string()));
            assert!(!cycle_path.contains(&"X".to_string()));
        }
        _ => panic!("Expected CircularDependencyDetected"),
    }
}

#[test]
fn diamond_dag_passes() {
    let edges = vec![
        make_edge("L1", vec!["A"], "B"),
        make_edge("L2", vec!["A"], "C"),
        make_edge("L3", vec!["B", "C"], "D"),
    ];
    assert!(check_dag(&edges, "test-tree").is_ok());
}

#[test]
fn self_loop_is_a_cycle() {
    let edges = vec![make_edge("L1", vec!["A"], "A")];
    match check_dag(&edges, "t").unwrap_err() {
        LtpError::CircularDependencyDetected { cycle_path, .. } => {
            assert_eq!(cycle_path, vec!["A".to_string(), "A".to_string()]);
        }
        _ => panic!("Expected CircularDependencyDetected"),
    }
}

#[test]
fn empty_graph_is_a_dag() {
    assert!(check_dag(&vec![], "t").is_ok());
}

// ---- Referential integrity ----

#[test]
fn valid_references_no_errors() {
    let p = pool(&["A", "B", "C"]);
    let edges = vec![make_edge("L1", vec!["A"], "B"), make_edge("L2", vec!["B"], "C")];
    let errors = check_integrity(&edges, &p, "test-tree");
    assert!(errors.is_empty());
}

#[test]
fn missing_from_node_detected() {
    let p = pool(&["A", "B"]);
    let edges = vec![make_edge("L1", vec!["MISSING"], "B")];
    let errors = check_integrity(&edges, &p, "test-tree");
    assert_eq!(errors.len(), 1);
    assert_eq!(errors[0].code, "REFERENTIAL_INTEGRITY_VIOLATION");
}

#[test]
fn missing_to_node_detected() {
    let p = pool(&["A"]);
    let edges = vec![make_edge("L1", vec!["A"], "MISSING")];
    let errors = check_integrity(&edges, &p, "test-tree");
    assert_eq!(errors.len(), 1);
}

#[test]
fn integrity_error_message_names_node_and_edge() {
    let p = pool(&["A"]);
    let edges = vec![make_edge("L7", vec!["A"], "Z")];
    let errors = check_integrity(&edges, &p, "T1");
    assert_eq!(errors[0].detail, "Node 'Z' referenced in edge 'L7' does not exist in pool");
}

// ---- Orphans ----

#[test]
fn connected_nodes_no_orphans() {
    let nodes = vec![node_ref("A"), node_ref("B")];
    let edges = vec![make_edge("L1", vec!["A"], "B")];
    let warnings = check_orphans(&nodes, &edges, "test-tree");
    assert!(warnings.is_empty());
}

#[test]
fn orphan_detected() {
    let nodes = vec![node_ref("A"), node_ref("B"), node_ref("C")];
    let edges = vec![make_edge("L1", vec!["A"], "B")];
    let warnings = check_orphans(&nodes, &edges, "test-tree");
    assert_eq!(warnings.len(), 1);
    assert_eq!(warnings[0].code, "ORPHAN_NODE_IN_TREE");
    assert!(warnings[0].detail.contains("C"));
}

// ---- EC rules ----

fn nec_edge(id: &str, from: Vec<&str>, to: &str) -> Edge {
    let mut e = make_edge(id, from, to);
    e.logic = Logic::Necessity;
    e
}

#[test]
fn valid_ec_no_errors() {
    let nodes = vec![
        role_ref("OBJ-001", Some("objective")),
        role_ref("REQ-001", Some("requirement")),
        role_ref("REQ-002", Some("requirement")),
        role_ref("PRE-001", Some("prerequisite")),
        role_ref("PRE-002", Some("prerequisite")),
    ];
    let edges = vec![nec_edge("L1", vec!["PRE-001"], "REQ-001"), nec_edge("L2", vec!["PRE-002"], "REQ-002")];
    let errors = check_ec_rules(&nodes, &edges, "test-ec");
    assert!(errors.is_empty());
}

#[test]
fn missing_objective() {
    let nodes = vec![role_ref("REQ-001", Some("requirement")), role_ref("REQ-002", Some("requirement"))];
    let errors = check_ec_rules(&nodes, &vec![], "test-ec");
    assert!(errors.iter().any(|e| e.detail.contains("objective")));
}

#[test]
fn insufficient_requirements() {
    let nodes = vec![role_ref("OBJ-001", Some("objective")), role_ref("REQ-001", Some("requirement"))];
    let errors = check_ec_rules(&nodes, &vec![], "test-ec");
    assert!(errors.iter().any(|e| e.detail.contains("at least 2")));
}

#[test]
fn requirement_without_prerequisite() {
    let nodes = vec![
        role_ref("OBJ-001", Some("objective")),
        role_ref("REQ-001", Some("requirement")),
        role_ref("REQ-002", Some("requirement")),
        role_ref("PRE-001", Some("prerequisite")),
    ];
    let edges = vec![nec_edge("L1", vec!["PRE-001"], "REQ-001")];
    let errors = check_ec_rules(&nodes, &edges, "test-ec");
    assert!(errors.iter().any(|e| e.detail.contains("REQ-002")));
}

// ---- CLR lints ----

#[test]
fn clr2_detects_conjunction() {
    let mut n = make_node("UDE-001", NodeType::Ude, true);
    n.label = "Vendemos poco porque no hay marketing".to_string();
    let warnings = lint_clr2(&vec![n]);
    assert!(!warnings.is_empty());
    assert_eq!(warnings[0].code, "CLR2_CONJUNCTION_DETECTED");
}

#[test]
fn clr4_single_input() {
    let edges = vec![make_edge_op("L1", vec!["A"], "B", Operator::Single)];
    let warnings = lint_clr4_insufficiency(&edges);
    assert_eq!(warnings.len(), 1);
    assert_eq!(warnings[0].code, "CLR4_INSUFFICIENT_CAUSE");
}

#[test]
fn clr4_multiple_inputs_no_warning() {
    let edges = vec![
        make_edge_op("L1", vec!["A"], "B", Operator::Single),
        make_edge_op("L2", vec!["C"], "B", Operator::Single),
    ];
    let warnings = lint_clr4_insufficiency(&edges);
    assert!(warnings.is_empty());
}

#[test]
fn clr4_5_excessive_and() {
    let edges = vec![make_edge_op("L1", vec!["A", "B", "C", "D", "E"], "F", Operator::And)];
    let warnings = lint_clr4_5_excessive_and(&edges);
    assert_eq!(warnings.len(), 1);
    assert_eq!(warnings[0].code, "CLR4_5_EXCESSIVE_AND_INPUTS");
}

#[test]
fn clr6_type_inversion_detected() {
    let node_map = vec![make_node("UDE-001", NodeType::Ude, true), make_node("RC-001", NodeType::Rc, true)];
    let edges = vec![make_edge_op("L1", vec!["UDE-001"], "RC-001", Operator::Single)];
    let warnings = lint_clr6_type_inversion(&edges, &node_map);
    assert_eq!(warnings.len(), 1);
    assert_eq!(warnings[0].code, "CLR6_TYPE_INVERSION");
}

#[test]
fn clr7_intangible_no_predicted() {
    let node_map = vec![make_node("RC-001", NodeType::Rc, false)];
    let edges = vec![make_edge_op("L1", vec!["RC-001"], "UDE-001", Operator::Single)];
    let warnings = lint_clr7_intangible(&edges, &node_map);
    assert_eq!(warnings.len(), 1);
    assert_eq!(warnings[0].code, "CLR7_INTANGIBLE_NO_PREDICTED");
}

#[test]
fn clr7_intangible_with_2_outgoing_no_warning() {
    let node_map = vec![make_node("RC-001", NodeType::Rc, false)];
    let edges = vec![
        make_edge_op("L1", vec!["RC-001"], "UDE-001", Operator::Single),
        make_edge_op("L2", vec!["RC-001"], "UDE-002", Operator::Single),
    ];
    let warnings = lint_clr7_intangible(&edges, &node_map);
    assert!(warnings.is_empty());
}

// ---- Long arrows ----

fn assumption(id: &str) -> Assumption {
    Assumption { id: id.to_string(), status: AssumptionStatus::Valid, text: format!("assumption {id}") }
}

fn asm_edge(id: &str, from: &str, to: &str, assumptions: Vec<Assumption>) -> Edge {
    let mut e = make_edge(id, vec![from], to);
    e.assumptions = assumptions;
    e
}

fn overlay(id: &str, interior_links: Vec<&str>, assumptions: Vec<MacroAssumption>) -> MacroEdge {
    MacroEdge {
        id: id.to_string(),
        from: "RC-001".to_string(),
        to: "UDE-001".to_string(),
        label: "Long arrow".to_string(),
        interior_nodes: vec![],
        interior_links: interior_links.into_iter().map(String::from).collect(),
        status: "active".to_string(),
        assumptions,
    }
}

fn masm(id: &str, refs: &[&str]) -> MacroAssumption {
    MacroAssumption {
        id: id.to_string(),
        status: AssumptionStatus::Valid,
        text: format!("resumen {id}"),
        projection_refs: refs.iter().map(|s| s.to_string()).collect(),
    }
}

fn tree_with(edges: Vec<Edge>, macro_edges: Vec<MacroEdge>) -> Tree {
    Tree {
        id: "TREE-001".to_string(),
        name: "Test".to_string(),
        tree_type: TreeType::Crt,
        logic: TreeLogic::Sufficiency,
        nodes: vec![],
        edges,
        macro_edges,
        feedback_edges: vec![],
        nbr_branches: vec![],
    }
}

fn codes(w: &[ltp_engine::output::OutputWarning]) -> Vec<&str> {
    w.iter().map(|w| w.code.as_str()).collect()
}

fn str_ctx<'a>(w: &'a ltp_engine::output::OutputWarning, key: &str) -> Option<&'a str> {
    match w.context_value(key) {
        Some(ContextValue::Str(s)) => Some(s.as_str()),
        _ => None,
    }
}

#[test]
fn unsummarized_when_interior_asms_but_no_summary() {
    let edges = vec![asm_edge("LINK-001", "A", "B", vec![assumption("ASM-001")])];
    let me = overlay("MACRO-001", vec!["LINK-001"], vec![]);
    let tree = tree_with(edges, vec![me]);
    let warnings = check_macro_edges(&tree);
    assert_eq!(codes(&warnings), vec!["LONG_ARROW_UNSUMMARIZED"]);
    assert!(matches!(warnings[0].context_value("interior_asm_count"), Some(ContextValue::Num(1))));
}

#[test]
fn no_unsummarized_when_interior_has_no_asms() {
    let edges = vec![asm_edge("LINK-001", "A", "B", vec![])];
    let me = overlay("MACRO-001", vec!["LINK-001"], vec![]);
    let tree = tree_with(edges, vec![me]);
    assert!(check_macro_edges(&tree).is_empty());
}

#[test]
fn stale_when_summary_has_unmapped() {
    let edges = vec![asm_edge("LINK-001", "A", "B", vec![assumption("ASM-001")])];
    let me = overlay("MACRO-001", vec!["LINK-001"], vec![masm("MASM-001", &["LINK-001"])]);
    let tree = tree_with(edges, vec![me]);
    let warnings = check_macro_edges(&tree);
    assert_eq!(codes(&warnings), vec!["LONG_ARROW_SUMMARY_STALE"]);
    match warnings[0].context_value("unmapped") {
        Some(ContextValue::List(v)) => assert_eq!(v, &vec!["ASM-001".to_string()]),
        _ => panic!("unmapped list expected"),
    }
}

#[test]
fn ungrounded_when_masm_has_no_refs() {
    let edges = vec![asm_edge("LINK-001", "A", "B", vec![])];
    let me = overlay("MACRO-001", vec!["LINK-001"], vec![masm("MASM-001", &[])]);
    let tree = tree_with(edges, vec![me]);
    let warnings = check_macro_edges(&tree);
    assert!(codes(&warnings).contains(&"MACRO_ASSUMPTION_UNGROUNDED"));
    let ungrounded = warnings.iter().find(|w| w.code == "MACRO_ASSUMPTION_UNGROUNDED").unwrap();
    assert_eq!(str_ctx(ungrounded, "assumption_id"), Some("MASM-001"));
}

#[test]
fn reservation_emits_pending_and_skips_summary_hygiene() {
    let edges = vec![asm_edge("LINK-001", "A", "B", vec![assumption("ASM-001")])];
    let mut me = overlay("MACRO-001", vec![], vec![]);
    me.status = "reservation".to_string();
    let tree = tree_with(edges, vec![me]);
    let warnings = check_macro_edges(&tree);
    assert_eq!(codes(&warnings), vec!["LONG_ARROW_RESERVATION_PENDING"]);
    assert_eq!(str_ctx(&warnings[0], "macro_link"), Some("MACRO-001"));
    assert_eq!(str_ctx(&warnings[0], "from"), Some("RC-001"));
    assert_eq!(str_ctx(&warnings[0], "to"), Some("UDE-001"));
}

#[test]
fn stale_counts_dangling_reference_to_removed_link() {
    let edges = vec![asm_edge("LINK-001", "A", "B", vec![assumption("ASM-001")])];
    let me = overlay("MACRO-001", vec!["LINK-001", "LINK-009"], vec![masm("MASM-001", &["ASM-001", "LINK-009"])]);
    let tree = tree_with(edges, vec![me]);
    let warnings = check_macro_edges(&tree);
    assert_eq!(codes(&warnings), vec!["LONG_ARROW_SUMMARY_STALE"]);
    assert_eq!(warnings[0].detail, "Long arrow 'MACRO-001' summary is stale (0 unmapped, 1 dangling)");
    match warnings[0].context_value("dangling") {
        Some(ContextValue::List(v)) => assert_eq!(v, &vec!["LINK-009".to_string()]),
        _ => panic!("dangling list expected"),
    }
}
