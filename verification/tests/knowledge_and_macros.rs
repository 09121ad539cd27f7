use ltp_engine::errors::LtpError;
use ltp_engine::knowledge::commands::{
    knowledge_add, knowledge_add_at, knowledge_edit, knowledge_inspect, knowledge_list, knowledge_rm,
    parse_confidence, parse_knowledge_relation, parse_knowledge_status, parse_knowledge_type,
};
use ltp_engine::knowledge::resolve::{resolve_target, target_exists};
use ltp_engine::knowledge::types::{
    Confidence, KnowledgeItem, KnowledgeLink, KnowledgeRelation, KnowledgeSource, KnowledgeStatus, KnowledgeType,
};
use ltp_engine::link::types::{Assumption, AssumptionStatus, Edge, EdgeStatus, FeedbackEdge, FeedbackLoopType, Logic, Operator};
use ltp_engine::macro_assume::{compute_diff, gather_interior_assumptions};
use ltp_engine::macro_edge::macro_add;
use ltp_engine::node::types::{new_node, EpistemicStatus, Node, NodeType};
use ltp_engine::output::ContextValue;
use ltp_engine::trace::{attach_knowledge, LinkSummary, TraceEntry};
use ltp_engine::tree::types::{MacroEdge, NbrBranch, NodeRef, Tree, TreeLogic, TreeType};
use ltp_engine::validate::knowledge::validate_knowledge;
use ltp_engine::workspace::counters::Counters;

fn assumption(id: &str) -> Assumption {
    Assumption { id: id.to_string(), status: AssumptionStatus::Valid, text: format!("assumption {id}") }
}

fn edge(id: &str, from: &str, to: &str, assumptions: Vec<Assumption>) -> Edge {
    Edge {
        id: id.to_string(),
        from: vec![from.to_string()],
        to: to.to_string(),
        operator: Operator::Single,
        weight: None,
        status: EdgeStatus::Active,
        logic: Logic::Sufficiency,
        assumptions,
    }
}

fn tree_with(edges: Vec<Edge>, macro_edges: Vec<MacroEdge>) -> Tree {
    Tree {
        id: "TREE-001".to_string(),
        name: "Test".to_string(),
        tree_type: TreeType::Crt,
        logic: TreeLogic::Sufficiency,
        nodes: vec![],
        edges,
        macro_edges,
        feedback_edges: vec![],
        nbr_branches: vec![],
    }
}

fn macro_edge(id: &str, interior_links: Vec<&str>) -> MacroEdge {
    MacroEdge {
        id: id.to_string(),
        from: "RC-001".to_string(),
        to: "UDE-001".to_string(),
        label: "Long arrow".to_string(),
        interior_nodes: vec![],
        interior_links: interior_links.into_iter().map(String::from).collect(),
        status: "active".to_string(),
        assumptions: vec![],
    }
}

fn keys(g: &[(String, Vec<Assumption>)]) -> Vec<&str> {
    g.iter().map(|(k, _)| k.as_str()).collect()
}

#[test]
fn uat_b3_gather_empty_interior_links() {
    let me = macro_edge("MACRO-001", vec![]);
    let tree = tree_with(vec![], vec![me.clone()]);
    let result = gather_interior_assumptions(&tree, &me);
    assert!(result.is_empty());
}

#[test]
fn uat_i4_gather_diamond_groups_by_link() {
    let edges = vec![
        edge("LINK-001", "A", "B", vec![assumption("ASM-001")]),
        edge("LINK-002", "A", "C", vec![assumption("ASM-002"), assumption("ASM-003")]),
        edge("LINK-003", "B", "D", vec![]),
        edge("LINK-004", "C", "D", vec![assumption("ASM-004")]),
    ];
    let me = macro_edge("MACRO-001", vec!["LINK-001", "LINK-002", "LINK-003", "LINK-004"]);
    let tree = tree_with(edges, vec![me.clone()]);
    let result = gather_interior_assumptions(&tree, &me);
    assert_eq!(keys(&result), vec!["LINK-001", "LINK-002", "LINK-003", "LINK-004"]);
    assert_eq!(result[0].1.len(), 1);
    assert_eq!(result[1].1.len(), 2);
    assert!(result[2].1.is_empty());
    assert_eq!(result[3].1[0].id, "ASM-004");
}

#[test]
fn gather_omits_missing_interior_link() {
    let edges = vec![edge("LINK-001", "A", "B", vec![assumption("ASM-001")])];
    let me = macro_edge("MACRO-001", vec!["LINK-001", "LINK-002"]);
    let tree = tree_with(edges, vec![me.clone()]);
    let result = gather_interior_assumptions(&tree, &me);
    assert_eq!(result.len(), 1);
    assert_eq!(keys(&result), vec!["LINK-001"]);
}

#[test]
fn gather_sorts_and_dedups_links() {
    let edges = vec![edge("LINK-002", "A", "B", vec![]), edge("LINK-001", "B", "C", vec![assumption("ASM-001")])];
    let me = macro_edge("MACRO-001", vec!["LINK-002", "LINK-001", "LINK-002"]);
    let tree = tree_with(edges, vec![me.clone()]);
    let result = gather_interior_assumptions(&tree, &me);
    assert_eq!(keys(&result), vec!["LINK-001", "LINK-002"]);
}

#[test]
fn diff_reports_unmapped_and_dangling() {
    let edges = vec![edge("LINK-001", "A", "B", vec![assumption("ASM-001"), assumption("ASM-002")])];
    let mut me = macro_edge("MACRO-001", vec!["LINK-001"]);
    me.assumptions = vec![ltp_engine::tree::types::MacroAssumption {
        id: "MASM-001".to_string(),
        status: AssumptionStatus::Valid,
        text: "t".to_string(),
        projection_refs: vec!["ASM-002".to_string(), "ASM-404".to_string(), "LINK-001".to_string()],
    }];
    let tree = tree_with(edges, vec![me.clone()]);
    let d = compute_diff(&tree, &me);
    assert_eq!(d.unmapped, vec!["ASM-001".to_string()]);
    assert_eq!(d.dangling, vec!["ASM-404".to_string()]);
}

// ---- knowledge commands ----

fn item(id: &str, status: KnowledgeStatus, links: Vec<(&str, KnowledgeRelation)>) -> KnowledgeItem {
    KnowledgeItem {
        id: id.to_string(),
        knowledge_type: KnowledgeType::Measurement,
        label: format!("item {id}"),
        status,
        confidence: None,
        source: KnowledgeSource { uri: Some("u".to_string()), excerpt: None },
        captured: "2026-01-01".to_string(),
        links: links.into_iter().map(|(t, r)| KnowledgeLink { target: t.to_string(), relation: r }).collect(),
        tags: vec![],
    }
}

#[test]
fn knowledge_add_requires_label() {
    let mut c = Counters::new_zeroed();
    let e = knowledge_add_at(&mut c, "", KnowledgeType::Document, Some("u"), None, None, None, None, "d".to_string()).unwrap_err();
    assert_eq!(e.code, "LABEL_REQUIRED");
    assert_eq!(e.detail, "Label cannot be empty");
    assert_eq!(c.values.get("KN"), Some(&0));
}

#[test]
fn knowledge_add_requires_a_non_empty_source() {
    let mut c = Counters::new_zeroed();
    let e = knowledge_add_at(&mut c, "L", KnowledgeType::Document, Some(""), None, None, None, None, "d".to_string()).unwrap_err();
    assert_eq!(e.code, "SOURCE_REQUIRED");
    assert_eq!(e.detail, "At least one of source-uri or source-excerpt must be provided");
}

#[test]
fn knowledge_add_defaults() {
    let mut c = Counters::new_zeroed();
    let (it, d) = knowledge_add_at(&mut c, "Delivery takes 18 days", KnowledgeType::Measurement, None, Some("excerpt"),
        None, None, Some(vec!["ops".to_string()]), "2026-08-17".to_string()).unwrap();
    assert_eq!(it.id, "KN-001");
    assert_eq!(it.status, KnowledgeStatus::Unverified);
    assert_eq!(it.confidence, Some(Confidence::Medium));
    assert_eq!(it.source.uri, None);
    assert_eq!(it.source.excerpt, Some("excerpt".to_string()));
    assert_eq!(it.captured, "2026-08-17");
    assert!(it.links.is_empty());
    assert_eq!(it.tags, vec!["ops".to_string()]);
    assert_eq!(d.created_knowledge_id, "KN-001");
    let (it2, _) = knowledge_add(&mut c, "Second", KnowledgeType::Testimony, Some("u"), None,
        Some(KnowledgeStatus::Verified), Some(Confidence::Low), None).unwrap();
    assert_eq!(it2.id, "KN-002");
    assert_eq!(it2.status, KnowledgeStatus::Verified);
    assert_eq!(it2.confidence, Some(Confidence::Low));
    assert_eq!(it2.captured.len(), 10);
}

#[test]
fn knowledge_edit_errors_in_order() {
    let e = knowledge_edit("KN-1", None, Some(""), None, None, None, None, None, None).unwrap_err();
    assert_eq!(e.code, "LABEL_REQUIRED");
    let e = knowledge_edit("KN-1", None, Some("x"), None, None, None, None, None, None).unwrap_err();
    assert_eq!(e.code, "KNOWLEDGE_NOT_FOUND");
    assert_eq!(e.detail, "Knowledge item 'KN-1' not found");
    let it = item("KN-1", KnowledgeStatus::Unverified, vec![]);
    let e = knowledge_edit("KN-1", Some(it), None, None, None, Some(""), None, None, None).unwrap_err();
    assert_eq!(e.code, "SOURCE_REQUIRED");
    assert_eq!(e.detail, "Cannot clear both source-uri and source-excerpt");
}

#[test]
fn knowledge_edit_tags_and_warnings() {
    let mut it = item("KN-1", KnowledgeStatus::Unverified, vec![]);
    it.tags = vec!["a".to_string(), "b".to_string()];
    let (out, d, w) = knowledge_edit("KN-1", Some(it), Some("New"), Some(KnowledgeStatus::Verified), None, None, None,
        Some(vec!["c".to_string(), "".to_string(), "a".to_string()]),
        Some(vec!["b".to_string(), "zz".to_string()])).unwrap();
    assert_eq!(out.tags, vec!["a".to_string(), "c".to_string()]);
    assert_eq!(d.label, "New");
    assert_eq!(d.status, KnowledgeStatus::Verified);
    assert_eq!(w.len(), 1);
    assert_eq!(w[0].code, "TAG_NOT_FOUND");
    assert_eq!(w[0].detail, "Tag 'zz' not found on item KN-1");
}

#[test]
fn knowledge_rm_splits_removed_and_failed() {
    let ids = vec!["KN-1".to_string(), "KN-2".to_string(), "KN-3".to_string()];
    let r = knowledge_rm(&ids, &vec![true, false, true]);
    assert_eq!(r.data.removed, vec!["KN-1".to_string(), "KN-3".to_string()]);
    assert_eq!(r.data.failed, vec!["KN-2".to_string()]);
    assert_eq!(r.errors.len(), 1);
    assert_eq!(r.errors[0].detail, "Knowledge item 'KN-2' not found");
    assert!(r.success);
    let r = knowledge_rm(&vec!["KN-9".to_string()], &vec![false]);
    assert!(!r.success);
}

#[test]
fn knowledge_inspect_missing_and_present() {
    assert_eq!(knowledge_inspect("KN-7", None).unwrap_err().code, "KNOWLEDGE_NOT_FOUND");
    let d = knowledge_inspect("KN-7", Some(item("KN-7", KnowledgeStatus::Refuted, vec![]))).unwrap();
    assert_eq!(d.id, "KN-7");
    assert_eq!(d.status, KnowledgeStatus::Refuted);
}

#[test]
fn knowledge_list_filters_and_warns() {
    let mut tagged = item("KN-2", KnowledgeStatus::Verified, vec![("UDE-1", KnowledgeRelation::Supports)]);
    tagged.tags = vec!["x".to_string()];
    let entries = vec![
        ("KN-1".to_string(), Ok(item("KN-1", KnowledgeStatus::Unverified, vec![]))),
        ("KN-2".to_string(), Ok(tagged)),
        ("KN-3".to_string(), Err(LtpError::Json("bad".to_string()))),
    ];
    let all = knowledge_list(&entries, None, None, None, false, None);
    assert_eq!(all.data.total, 2);
    assert_eq!(all.warnings.len(), 1);
    assert_eq!(all.warnings[0].code, "KNOWLEDGE_LOAD_ERROR");
    let unl = knowledge_list(&entries, None, None, None, true, None);
    assert_eq!(unl.data.items.len(), 1);
    assert_eq!(unl.data.items[0].id, "KN-1");
    let tag = knowledge_list(&entries, None, Some(KnowledgeStatus::Verified), None, false, Some("x"));
    assert_eq!(tag.data.items.len(), 1);
    assert_eq!(tag.data.items[0].link_count, 1);
}

#[test]
fn knowledge_parsers() {
    assert_eq!(parse_knowledge_type("Measurement"), Ok(KnowledgeType::Measurement));
    assert_eq!(parse_knowledge_type("Blah"), Err("Unknown knowledge type: blah".to_string()));
    assert_eq!(parse_knowledge_status("VERIFIED"), Ok(KnowledgeStatus::Verified));
    assert_eq!(parse_confidence("low"), Ok(Confidence::Low));
    assert_eq!(parse_confidence("x"), Err("Unknown confidence level: x".to_string()));
    assert_eq!(parse_knowledge_relation("Contradicts"), Ok(KnowledgeRelation::Contradicts));
}

// ---- resolution and knowledge validation ----

fn pool_node(id: &str, epistemic: EpistemicStatus) -> Node {
    new_node(id.to_string(), NodeType::Ude, format!("label {id}"), vec![], true, epistemic)
}

fn graph() -> (Vec<Node>, Vec<Tree>) {
    let mut t = tree_with(vec![edge("LINK-001", "A", "B", vec![assumption("ASM-001")])], vec![]);
    t.feedback_edges = vec![FeedbackEdge {
        id: "FB-001".to_string(),
        from: "B".to_string(),
        to: "A".to_string(),
        loop_type: FeedbackLoopType::Positive,
        label: None,
    }];
    t.nbr_branches = vec![NbrBranch {
        id: "NBR-001".to_string(),
        source_node: "A".to_string(),
        edges: vec![edge("LINK-002", "A", "C", vec![])],
        trim_injection: None,
    }];
    (vec![pool_node("UDE-001", EpistemicStatus::Fact)], vec![t])
}

#[test]
fn resolve_targets_of_every_kind() {
    let (nodes, trees) = graph();
    let r = resolve_target("LINK-002", &nodes, &trees).unwrap();
    assert_eq!(r.label, Some("A -> C".to_string()));
    assert_eq!(r.target_type, "edge");
    let r = resolve_target("FB-001", &nodes, &trees).unwrap();
    assert_eq!(r.label, Some("B -> A".to_string()));
    assert_eq!(r.target_type, "feedback_edge");
    let r = resolve_target("ASM-001", &nodes, &trees).unwrap();
    assert_eq!(r.label, Some("assumption ASM-001".to_string()));
    let r = resolve_target("UDE-001", &nodes, &trees).unwrap();
    assert_eq!(r.target_type, "node");
    assert!(resolve_target("MACRO-001", &nodes, &trees).is_none());
    assert!(!target_exists("LINK-404", &nodes, &trees));
}

#[test]
fn validate_knowledge_dangling_and_epistemic() {
    let (nodes, trees) = graph();
    let items = vec![
        item("KN-1", KnowledgeStatus::Verified, vec![("UDE-001", KnowledgeRelation::Contradicts), ("NOPE-1", KnowledgeRelation::Supports)]),
    ];
    let w = validate_knowledge(&items, &nodes, &trees, Some(&nodes), None);
    let codes: Vec<&str> = w.iter().map(|w| w.code.as_str()).collect();
    assert_eq!(codes, vec!["DANGLING_KNOWLEDGE_REF", "EPISTEMIC_UNGROUNDED", "EPISTEMIC_CONTRADICTED"]);
    assert_eq!(w[0].detail, "Knowledge item 'KN-1' links to 'NOPE-1' which does not exist");
    assert_eq!(w[2].detail, "Node 'UDE-001' (fact) is contradicted by verified evidence 'KN-1'");
}

#[test]
fn validate_knowledge_upgradeable_hypothesis() {
    let nodes = vec![pool_node("RC-1", EpistemicStatus::Hypothesis)];
    let items = vec![
        item("KN-1", KnowledgeStatus::Verified, vec![("RC-1", KnowledgeRelation::Supports)]),
        item("KN-2", KnowledgeStatus::Verified, vec![("RC-1", KnowledgeRelation::Supports)]),
    ];
    let w = validate_knowledge(&items, &nodes, &vec![], Some(&nodes), None);
    assert_eq!(w.len(), 1);
    assert_eq!(w[0].code, "EPISTEMIC_UPGRADEABLE");
    assert_eq!(w[0].detail, "Node 'RC-1' (Hypothesis) has 2 verified supports and could be promoted to fact");
    assert!(matches!(w[0].context_value("verified_supports"), Some(ContextValue::Num(2))));
    let filtered = validate_knowledge(&items, &nodes, &vec![], Some(&nodes), Some(&vec!["OTHER".to_string()]));
    assert!(filtered.is_empty());
}

// ---- macro add ----

fn attached_tree() -> Tree {
    let mut t = tree_with(vec![], vec![]);
    t.nodes = vec![
        NodeRef { node_ref: "RC-001".to_string(), role: None },
        NodeRef { node_ref: "UDE-001".to_string(), role: None },
    ];
    t
}

#[test]
fn macro_add_refusals() {
    let mut c = Counters::new_zeroed();
    let mut t = attached_tree();
    assert_eq!(macro_add(&mut t, &mut c, "RC-001", "UDE-001", "  \t").unwrap_err().code, "LABEL_REQUIRED");
    let e = macro_add(&mut t, &mut c, "RC-001", "RC-001", "x").unwrap_err();
    assert_eq!(e.code, "RESERVATION_SELF_LOOP");
    assert_eq!(e.detail, "Reservation cannot loop node 'RC-001' onto itself");
    let e = macro_add(&mut t, &mut c, "RC-001", "NC-9", "x").unwrap_err();
    assert_eq!(e.code, "NODE_NOT_IN_TREE");
    assert_eq!(e.detail, "Node 'NC-9' is not attached to tree 'TREE-001'");
    assert!(t.macro_edges.is_empty());
    assert_eq!(c.values.get("MACRO"), Some(&0));
}

#[test]
fn macro_add_creates_reservation() {
    let mut c = Counters::new_zeroed();
    let mut t = attached_tree();
    let d = macro_add(&mut t, &mut c, "RC-001", "UDE-001", "Jump").unwrap();
    assert_eq!(d.macro_edge_id, "MACRO-001");
    assert_eq!(t.macro_edges.len(), 1);
    assert_eq!(t.macro_edges[0].status, "reservation");
    let w = ltp_engine::validate::macro_edge::check_macro_edges(&t);
    assert_eq!(w.len(), 1);
    assert_eq!(w[0].code, "LONG_ARROW_RESERVATION_PENDING");
}

#[test]
fn trace_show_knowledge_attaches_links_per_node() {
    let mut chain = vec![
        TraceEntry {
            node: "UDE-001".to_string(),
            link_to_next: Some(LinkSummary { id: "LINK-001".to_string(), status: "active".to_string(), operator: "SINGLE".to_string() }),
            knowledge: None,
        },
        TraceEntry { node: "RC-001".to_string(), link_to_next: None, knowledge: None },
    ];
    let mut verified = item("KN-001", KnowledgeStatus::Verified, vec![("UDE-001", KnowledgeRelation::Supports), ("RC-001", KnowledgeRelation::Contradicts)]);
    verified.confidence = Some(Confidence::High);
    let other = item("KN-002", KnowledgeStatus::Unverified, vec![("UDE-001", KnowledgeRelation::Contextualizes)]);
    attach_knowledge(&mut chain, &vec![verified, other]);
    assert_eq!(chain.len(), 2);
    assert_eq!(chain[0].node, "UDE-001");
    assert_eq!(chain[0].link_to_next.as_ref().unwrap().id, "LINK-001");
    let k0 = chain[0].knowledge.as_ref().unwrap();
    assert_eq!(k0.len(), 2);
    assert_eq!((k0[0].id.as_str(), k0[0].relation.as_str(), k0[0].status.as_str()), ("KN-001", "supports", "verified"));
    assert_eq!(k0[0].confidence.as_deref(), Some("high"));
    assert_eq!((k0[1].id.as_str(), k0[1].relation.as_str(), k0[1].status.as_str()), ("KN-002", "contextualizes", "unverified"));
    assert_eq!(k0[1].confidence, None);
    let k1 = chain[1].knowledge.as_ref().unwrap();
    assert_eq!(k1.len(), 1);
    assert_eq!(k1[0].relation, "contradicts");
}
