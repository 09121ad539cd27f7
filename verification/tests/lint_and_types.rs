use ltp_engine::history::manager::HistoryManager;
use ltp_engine::knowledge::types::KnowledgeSource;
use ltp_engine::link::commands::{operator_of_upper, parse_operator};
use ltp_engine::link::types::Operator;
use ltp_engine::node::clr_lint::{find_conjunctions, find_conjunctions_in, lint_clr2, lint_clr2_lowered};
use ltp_engine::node::commands::parse_node_type;
use ltp_engine::node::types::NodeType;
use ltp_engine::tree::commands::{slug_from_lower, slugify};
use ltp_engine::workspace::counters::{entity_types, Counters};

#[test]
fn detects_porque() {
    let warnings = lint_clr2("Vendemos poco porque no hay marketing");
    assert_eq!(warnings.len(), 1);
    assert_eq!(warnings[0].code, "CLR2_CONJUNCTION_DETECTED");
}

#[test]
fn detects_because() {
    let warnings = lint_clr2("Sales drop because of bad logistics");
    assert_eq!(warnings.len(), 1);
}

#[test]
fn detects_in_order_to() {
    let warnings = lint_clr2("We hire more in order to increase capacity");
    assert_eq!(warnings.len(), 1);
}

#[test]
fn clean_label_no_warnings() {
    let warnings = lint_clr2("El tiempo de entrega supera 15 días");
    assert!(warnings.is_empty());
}

#[test]
fn para_requires_spaces() {
    let warnings = lint_clr2("Paralelismo de procesos");
    assert!(warnings.is_empty());
}

#[test]
fn clr2_message_names_trimmed_conjunction() {
    let warnings = lint_clr2("Compramos mas para vender mas");
    assert_eq!(warnings.len(), 1);
    assert_eq!(
        warnings[0].detail,
        "Causal conjunction detected: 'para'. Consider splitting into separate entities."
    );
}

#[test]
fn knowledge_source_valid_with_uri() {
    let source = KnowledgeSource { uri: Some("https://example.com".to_string()), excerpt: None };
    assert!(source.is_valid());
}

#[test]
fn knowledge_source_valid_with_excerpt() {
    let source = KnowledgeSource { uri: None, excerpt: Some("Some text".to_string()) };
    assert!(source.is_valid());
}

#[test]
fn knowledge_source_invalid_when_empty() {
    let source = KnowledgeSource { uri: None, excerpt: None };
    assert!(!source.is_valid());
}

#[test]
fn next_id_increments_correctly() {
    let mut counters = Counters::new_zeroed();
    assert_eq!(counters.next("UDE"), "UDE-001");
    assert_eq!(counters.next("UDE"), "UDE-002");
    assert_eq!(counters.next("RC"), "RC-001");
}

#[test]
fn new_zeroed_has_all_types() {
    let counters = Counters::new_zeroed();
    for t in entity_types() {
        assert_eq!(counters.values.get(t), Some(&0));
    }
}

#[test]
fn next_uppercases_the_type() {
    let mut counters = Counters::new_zeroed();
    assert_eq!(counters.next("ude"), "UDE-001");
    assert_eq!(counters.next("Ude"), "UDE-002");
}

#[test]
fn ids_pad_to_three_digits_and_grow_past() {
    let mut counters = Counters::new_zeroed();
    for _ in 0..999 {
        counters.next("KN");
    }
    assert_eq!(counters.next("KN"), "KN-1000");
}

#[test]
fn sha256_produces_consistent_hash() {
    let hash = HistoryManager::sha256_hash("hello world");
    assert!(hash.starts_with("sha256:"));
    let hash2 = HistoryManager::sha256_hash("hello world");
    assert_eq!(hash, hash2);
}

#[test]
fn sha256_different_content_different_hash() {
    let h1 = HistoryManager::sha256_hash("aaa");
    let h2 = HistoryManager::sha256_hash("bbb");
    assert_ne!(h1, h2);
}

#[test]
fn sha256_known_digest() {
    assert_eq!(
        HistoryManager::sha256_hash("hello world"),
        "sha256:b94d27b9934d3e08a52e52d7da7dabfac484efe37a5380ee9088f7ace2efcde9"
    );
}

#[test]
fn node_type_prefix_parses_back_and_is_counted() {
    let all = [
        NodeType::Ude, NodeType::Rc, NodeType::Inj, NodeType::Nc, NodeType::Goal, NodeType::Obj, NodeType::Want,
        NodeType::Obs, NodeType::Io, NodeType::Int, NodeType::De, NodeType::Req, NodeType::Pre,
    ];
    let c = Counters::new_zeroed();
    for (i, t) in all.iter().enumerate() {
        assert_eq!(parse_node_type(t.prefix()).ok(), Some(*t));
        assert_eq!(parse_node_type(&t.prefix().to_lowercase()).ok(), Some(*t));
        assert_eq!(c.values.get(t.prefix()), Some(&0));
        for u in &all[i + 1..] {
            assert_ne!(t.prefix(), u.prefix());
        }
    }
    assert_eq!(NodeType::Ude.prefix(), "UDE");
    assert_eq!(NodeType::Pre.prefix(), "PRE");
    assert!(parse_node_type("widget").is_err());
}

#[test]
fn conjunction_scan_takes_the_lowered_text() {
    assert_eq!(find_conjunctions_in("sales drop because of poor logistics"), vec![2]);
    assert_eq!(find_conjunctions_in("vendemos poco porque no hay dinero y tiempo"), vec![0, 4]);
    assert_eq!(find_conjunctions_in("Sales drop BECAUSE of it"), Vec::<usize>::new());
    assert_eq!(find_conjunctions("Sales drop BECAUSE of it"), vec![2]);
    let w = lint_clr2_lowered("Work IN ORDER TO win", "work in order to win");
    assert_eq!(w.len(), 1);
    assert_eq!(w[0].detail, "Causal conjunction detected: 'in order to'. Consider splitting into separate entities.");
    assert_eq!(lint_clr2("Work IN ORDER TO win").len(), 1);
}

#[test]
fn operator_lookup_takes_the_uppercased_name() {
    assert_eq!(operator_of_upper("XOR"), Some(Operator::Xor));
    assert_eq!(operator_of_upper("SINGLE"), Some(Operator::Single));
    assert_eq!(operator_of_upper("xor"), None);
    assert_eq!(parse_operator("xor"), Some(Operator::Xor));
    assert_eq!(parse_operator("Or"), Some(Operator::Or));
}

#[test]
fn slug_takes_the_lowered_name() {
    assert_eq!(slug_from_lower("supply chain -- delays!"), "supply-chain-delays");
    assert_eq!(slug_from_lower("Caps Stay"), "Caps-Stay");
    assert_eq!(slugify("Caps Stay"), "caps-stay");
    assert_eq!(slugify("  --  "), "");
}

#[test]
fn observe_raises_counters_only_upward() {
    let mut c = Counters::new_zeroed();
    c.observe("UDE".to_string(), 7);
    assert_eq!(c.values.get("UDE"), Some(&7));
    c.observe("UDE".to_string(), 3);
    assert_eq!(c.values.get("UDE"), Some(&7));
    c.observe("ZZZ".to_string(), 0);
    assert_eq!(c.values.get("ZZZ"), Some(&0));
    c.observe_file_name("rc-012.json");
    assert_eq!(c.values.get("RC"), Some(&12));
    assert_eq!(c.next("rc"), "RC-013");
}
