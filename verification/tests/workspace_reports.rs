use ltp_engine::errors::LtpError;
use ltp_engine::knowledge::types::{KnowledgeItem, KnowledgeLink, KnowledgeRelation, KnowledgeSource, KnowledgeStatus, KnowledgeType};
use ltp_engine::link::types::{Edge, EdgeStatus, Logic, Operator};
use ltp_engine::node::types::{new_node, EpistemicStatus, NodeType};
use ltp_engine::status::status;
use ltp_engine::tree::types::{NodeRef, Tree, TreeLogic, TreeType};
use ltp_engine::tree::walk::tree_walk;
use ltp_engine::validate::validate_trees;
use ltp_engine::workspace::init::{init_data, init_failure};
use ltp_engine::workspace::lock::{lock_decision, LockFile};
use ltp_engine::storage::LockOutcome;
use ltp_engine::history::hook::{NoOpHook, SnapshotHook};
use ltp_engine::history::manager::{next_seq, seq_of_file_name, sort_seqs};

fn edge(id: &str, from: &[&str], to: &str) -> Edge {
    Edge {
        id: id.to_string(),
        from: from.iter().map(|s| s.to_string()).collect(),
        to: to.to_string(),
        operator: Operator::Single,
        weight: None,
        status: EdgeStatus::Active,
        logic: Logic::Sufficiency,
        assumptions: vec![],
    }
}

fn tree(id: &str, nodes: &[(&str, Option<&str>)], edges: Vec<Edge>) -> Tree {
    Tree {
        id: id.to_string(),
        name: format!("name {id}"),
        tree_type: TreeType::Crt,
        logic: TreeLogic::Sufficiency,
        nodes: nodes.iter().map(|(n, r)| NodeRef { node_ref: n.to_string(), role: r.map(String::from) }).collect(),
        edges,
        macro_edges: vec![],
        feedback_edges: vec![],
        nbr_branches: vec![],
    }
}

fn ids(w: &ltp_engine::tree::commands::TreeWalkData) -> Vec<&str> {
    w.nodes.iter().map(|n| n.id.as_str()).collect()
}

#[test]
fn walk_is_topological_with_sorted_ties() {
    let t = tree("T", &[("D", None), ("B", Some("mid")), ("C", None), ("A", Some("root"))],
        vec![edge("L1", &["A"], "B"), edge("L2", &["A"], "C"), edge("L3", &["B", "C"], "D")]);
    let w = tree_walk(&t, "forward");
    assert_eq!(ids(&w), vec!["A", "B", "C", "D"]);
    assert_eq!(w.nodes[0].role, Some("root".to_string()));
    assert_eq!(w.nodes[0].outgoing_edges, vec!["L1".to_string(), "L2".to_string()]);
    assert_eq!(w.nodes[3].incoming_edges, vec!["L3".to_string()]);
    let r = tree_walk(&t, "reverse");
    assert_eq!(ids(&r), vec!["D", "C", "B", "A"]);
}

#[test]
fn walk_queues_first_in_first_out() {
    // B and D have no causes; B makes A ready and D makes C ready. The queue
    // takes them in the order they became ready, not the smallest first.
    let t = tree("T", &[("A", None), ("B", None), ("C", None), ("D", None)],
        vec![edge("L1", &["B"], "A"), edge("L2", &["D"], "C")]);
    let w = tree_walk(&t, "forward");
    assert_eq!(ids(&w), vec!["B", "D", "A", "C"]);
}

#[test]
fn walk_appends_nodes_in_a_cycle_or_fed_from_outside() {
    let t = tree("T", &[("Y", None), ("X", None), ("Z", None)],
        vec![edge("L1", &["X"], "Y"), edge("L2", &["Y"], "X"), edge("L3", &["OUT"], "Z")]);
    let w = tree_walk(&t, "forward");
    assert_eq!(ids(&w), vec!["Y", "X", "Z"]);
}

#[test]
fn walk_lists_duplicate_attachment_once() {
    let t = tree("T", &[("A", Some("first")), ("A", Some("second"))], vec![]);
    let w = tree_walk(&t, "forward");
    assert_eq!(ids(&w), vec!["A"]);
    assert_eq!(w.nodes[0].role, Some("second".to_string()));
}

fn kn(id: &str, status: KnowledgeStatus, links: Vec<(&str, KnowledgeRelation)>) -> KnowledgeItem {
    KnowledgeItem {
        id: id.to_string(),
        knowledge_type: KnowledgeType::Document,
        label: "l".to_string(),
        status,
        confidence: None,
        source: KnowledgeSource { uri: Some("u".to_string()), excerpt: None },
        captured: "2026-01-01".to_string(),
        links: links.into_iter().map(|(t, r)| KnowledgeLink { target: t.to_string(), relation: r }).collect(),
        tags: vec![],
    }
}

#[test]
fn status_counts_and_health() {
    let node_ids: Vec<String> = vec!["A".to_string(), "B".to_string(), "C".to_string()];
    let good = tree("T1", &[("A", None), ("B", None)], vec![edge("L1", &["A"], "B")]);
    let cyclic = tree("T2", &[("A", None), ("B", None)], vec![edge("L1", &["A"], "B"), edge("L2", &["B"], "A")]);
    let pool = vec![
        new_node("A".to_string(), NodeType::Ude, "a".to_string(), vec![], true, EpistemicStatus::Fact),
        new_node("B".to_string(), NodeType::Rc, "b".to_string(), vec![], true, EpistemicStatus::Hypothesis),
    ];
    let items = vec![
        kn("KN-1", KnowledgeStatus::Verified, vec![("A", KnowledgeRelation::Contradicts), ("B", KnowledgeRelation::Contradicts)]),
        kn("KN-2", KnowledgeStatus::Refuted, vec![]),
    ];
    let r = status(&node_ids, 3, &vec![good, cyclic], &items, &pool);
    assert_eq!(r.data.node_count, 3);
    assert_eq!(r.data.tree_count, 3);
    assert!(r.data.trees[0].valid_dag);
    assert!(!r.data.trees[1].valid_dag);
    assert!(!r.graph_health.valid_dag);
    assert_eq!(r.graph_health.orphan_nodes_count, 1);
    let kh = r.data.knowledge_health.unwrap();
    assert_eq!(kh.total, 2);
    assert_eq!(kh.unlinked_items, 1);
    assert_eq!(kh.contradictions, 1);
    assert_eq!(kh.by_status.verified, 1);
    assert_eq!(kh.by_status.refuted, 1);
    assert_eq!(kh.epistemic_coverage.fact, 1);
    assert_eq!(kh.epistemic_coverage.hypothesis, 1);
}

#[test]
fn validate_trees_reports_load_errors_and_cycles() {
    let pool = vec!["A".to_string(), "B".to_string()];
    let cyclic = tree("T2", &[("A", None), ("B", None)], vec![edge("L1", &["A"], "B"), edge("L2", &["B"], "A")]);
    let entries = vec![
        ("T1".to_string(), Err(LtpError::TreeNotFound("T1".to_string()))),
        ("T2".to_string(), Ok((cyclic, vec![]))),
    ];
    let r = validate_trees(&entries, &pool);
    assert_eq!(r.data.trees_validated, 2);
    assert_eq!(r.data.details[0].errors[0].code, "TREE_LOAD_ERROR");
    assert_eq!(r.data.details[1].errors[0].code, "CIRCULAR_DEPENDENCY_DETECTED");
    assert_eq!(r.data.details[1].errors[0].detail, "Cycle detected in tree 'T2'");
    assert!(!r.valid_dag);
    assert_eq!(r.data.total_errors, 2);
    assert!(!r.success);
}

#[test]
fn init_reports_layout_and_errors() {
    let d = init_data();
    assert_eq!(d.directories_created.len(), 7);
    assert_eq!(d.config_file, "ltp.config.json");
    let e = init_failure(&LtpError::WorkspaceAlreadyExists { path: "/w".to_string() });
    assert_eq!(e.code, "WORKSPACE_ALREADY_EXISTS");
    assert_eq!(e.detail, "Workspace already initialized at /w");
    assert_eq!(init_failure(&LtpError::Io("disk".to_string())).detail, "disk");
}

#[test]
fn lock_decisions() {
    assert!(matches!(lock_decision(None, true), Ok(LockOutcome::Acquired)));
    let l = LockFile { pid: 42, timestamp: "t".to_string(), command: "c".to_string() };
    assert!(matches!(lock_decision(Some(&l), true), Err(LtpError::WorkspaceLocked { pid: 42, .. })));
    assert!(matches!(lock_decision(Some(&l), false), Ok(LockOutcome::StaleLockRemoved { pid: 42 })));
}

#[test]
fn history_sequence_helpers() {
    assert_eq!(seq_of_file_name("007.json"), Some(7));
    assert_eq!(seq_of_file_name("x.json"), None);
    assert_eq!(seq_of_file_name("12"), None);
    let s = sort_seqs(&vec![3, 1, 2]);
    assert_eq!(s, vec![1, 2, 3]);
    assert_eq!(next_seq(&s), 4);
    assert_eq!(next_seq(&vec![]), 1);
}

#[test]
fn no_op_hook_accepts_every_mutation() {
    let files = vec!["nodes/UDE-001.json".to_string()];
    assert!(NoOpHook.before_mutation(&files).is_ok());
    assert!(NoOpHook.after_mutation(&files).is_ok());
    assert!(NoOpHook.before_mutation(&vec![]).is_ok());
}
