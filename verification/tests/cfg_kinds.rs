use std::collections::HashSet;

use magellan::cfg_extractor::{BlockKind, TerminatorKind};
use magellan::cfg_model::{CfgBlock, CfgEdge, CfgEdgeType};
use magellan::cfg_ops::{block_cfg_hash, block_hash_message, digest_text, edge_type_from_stored, evaluate_cfg_condition, filter_live_blocks};

#[test]
fn cfg_edges_extract_test_cfg_edge_type_as_str() {
    assert_eq!(CfgEdgeType::Fallthrough.as_str(), "fallthrough");
    assert_eq!(CfgEdgeType::ConditionalTrue.as_str(), "conditional_true");
    assert_eq!(CfgEdgeType::ConditionalFalse.as_str(), "conditional_false");
    assert_eq!(CfgEdgeType::Jump.as_str(), "jump");
    assert_eq!(CfgEdgeType::BackEdge.as_str(), "back_edge");
    assert_eq!(CfgEdgeType::Call.as_str(), "call");
    assert_eq!(CfgEdgeType::Return.as_str(), "return");
}

#[test]
fn cfg_edges_extract_test_cfg_edge_creation() {
    let edge = CfgEdge { source_idx: 0, target_idx: 1, edge_type: CfgEdgeType::Fallthrough };
    assert_eq!(edge.source_idx, 0);
    assert_eq!(edge.target_idx, 1);
    assert_eq!(edge.edge_type, CfgEdgeType::Fallthrough);
}

#[test]
fn tests_test_cfg_edge_type_as_str() {
    assert_eq!(CfgEdgeType::Fallthrough.as_str(), "fallthrough");
    assert_eq!(CfgEdgeType::ConditionalTrue.as_str(), "conditional_true");
    assert_eq!(CfgEdgeType::ConditionalFalse.as_str(), "conditional_false");
    assert_eq!(CfgEdgeType::Jump.as_str(), "jump");
    assert_eq!(CfgEdgeType::BackEdge.as_str(), "back_edge");
    assert_eq!(CfgEdgeType::Call.as_str(), "call");
    assert_eq!(CfgEdgeType::Return.as_str(), "return");
}

#[test]
fn tests_test_cfg_edge_creation() {
    let edge = CfgEdge { source_idx: 0, target_idx: 1, edge_type: CfgEdgeType::Fallthrough };
    assert_eq!(edge.source_idx, 0);
    assert_eq!(edge.target_idx, 1);
    assert_eq!(edge.edge_type, CfgEdgeType::Fallthrough);
}

#[test]
fn test_block_kind_display() {
    assert_eq!(BlockKind::Entry.as_str(), "entry");
    assert_eq!(BlockKind::If.as_str(), "if");
    assert_eq!(BlockKind::Loop.as_str(), "loop");
    assert_eq!(BlockKind::Return.as_str(), "return");
}

#[test]
fn test_terminator_kind_display() {
    assert_eq!(TerminatorKind::Return.as_str(), "return");
    assert_eq!(TerminatorKind::Break.as_str(), "break");
    assert_eq!(TerminatorKind::Conditional.as_str(), "conditional");
}

#[test]
fn test_evaluate_cfg_condition_unknown_is_true() {
    let features = HashSet::new();
    assert!(
        evaluate_cfg_condition("target_os = \"linux\"", &features),
        "unknown condition should conservatively return true"
    );
}

#[test]
fn test_evaluate_cfg_condition_feature() {
    let mut features = HashSet::new();
    features.insert("async".to_string());
    assert!(evaluate_cfg_condition(r#"feature = "async""#, &features));
    assert!(!evaluate_cfg_condition(r#"feature = "sync""#, &features));
}

#[test]
fn test_evaluate_cfg_condition_all() {
    let mut features = HashSet::new();
    features.insert("a".to_string());
    features.insert("b".to_string());
    assert!(evaluate_cfg_condition(r#"all(feature = "a", feature = "b")"#, &features), "all active should be true");
    assert!(!evaluate_cfg_condition(r#"all(feature = "a", feature = "c")"#, &features), "one missing should be false");
}

#[test]
fn test_evaluate_cfg_condition_any() {
    let mut features = HashSet::new();
    features.insert("a".to_string());
    assert!(evaluate_cfg_condition(r#"any(feature = "a", feature = "b")"#, &features), "one active in any should be true");
    assert!(!evaluate_cfg_condition(r#"any(feature = "c", feature = "d")"#, &features), "none active in any should be false");
}

#[test]
fn test_evaluate_cfg_condition_not() {
    let mut features = HashSet::new();
    features.insert("a".to_string());
    assert!(!evaluate_cfg_condition(r#"not(feature = "a")"#, &features), "not active should be false");
    assert!(evaluate_cfg_condition(r#"not(feature = "b")"#, &features), "not inactive should be true");
}

#[test]
fn stored_edge_type_names_read_back() {
    for t in [
        CfgEdgeType::Fallthrough,
        CfgEdgeType::ConditionalTrue,
        CfgEdgeType::ConditionalFalse,
        CfgEdgeType::Jump,
        CfgEdgeType::BackEdge,
        CfgEdgeType::Call,
        CfgEdgeType::Return,
    ] {
        assert_eq!(edge_type_from_stored(t.as_str()), t);
    }
    assert_eq!(edge_type_from_stored("something_else"), CfgEdgeType::Fallthrough);
}

fn block(function_id: i64, condition: Option<&str>) -> CfgBlock {
    CfgBlock {
        function_id,
        kind: "entry".to_string(),
        terminator: "fallthrough".to_string(),
        byte_start: 10,
        byte_end: 42,
        start_line: 1,
        start_col: 0,
        end_line: 3,
        end_col: 1,
        cfg_hash: None,
        statements: Some(vec!["let x = 1;".to_string()]),
        cfg_condition: condition.map(|c| c.to_string()),
    }
}

#[test]
fn block_hash_is_the_sha256_prefix_of_the_block_content() {
    let b = block(7, None);
    let mut message: Vec<u8> = Vec::new();
    message.extend_from_slice(&7i64.to_le_bytes());
    message.extend_from_slice(b"entry");
    message.extend_from_slice(b"fallthrough");
    message.extend_from_slice(&10u64.to_le_bytes());
    message.extend_from_slice(&42u64.to_le_bytes());
    message.extend_from_slice(serde_json::to_string(&vec!["let x = 1;"]).unwrap().as_bytes());
    let digest = <sha2::Sha256 as sha2::Digest>::digest(&message);
    let hex: String = digest.iter().map(|d| format!("{:02x}", d)).collect();
    assert_eq!(block_cfg_hash(&b), hex[..16].to_string());
    assert_ne!(block_cfg_hash(&b), block_cfg_hash(&block(8, None)));
    let mut own = block(7, None);
    own.cfg_hash = Some("abc".to_string());
    assert_eq!(block_cfg_hash(&own), "abc");
}

#[test]
fn live_blocks_are_those_whose_condition_holds() {
    let mut features = HashSet::new();
    features.insert("fast".to_string());
    let blocks = vec![
        block(1, None),
        block(2, Some(r#"feature = "fast""#)),
        block(3, Some(r#"feature = "slow""#)),
        block(4, Some(r#"not(feature = "slow")"#)),
    ];
    let live: Vec<i64> = filter_live_blocks(blocks, &features).iter().map(|b| b.function_id).collect();
    assert_eq!(live, vec![1, 2, 4]);
}

#[test]
fn digest_text_is_the_hex_of_the_first_eight_bytes() {
    let digest: Vec<u8> = vec![0x01, 0xab, 0x00, 0xff, 0x10, 0x9c, 0x7e, 0x42, 0x99, 0x88];
    assert_eq!(digest_text(&digest), "01ab00ff109c7e42");
}

#[test]
fn hash_message_holds_the_block_content() {
    let b = block(7, None);
    let mut expected: Vec<u8> = Vec::new();
    expected.extend_from_slice(&7i64.to_le_bytes());
    expected.extend_from_slice(b"entryfallthrough");
    expected.extend_from_slice(&10u64.to_le_bytes());
    expected.extend_from_slice(&42u64.to_le_bytes());
    expected.extend_from_slice(br#"["let x = 1;"]"#);
    assert_eq!(block_hash_message(&b), expected);
    let mut bare = block(7, None);
    bare.statements = None;
    assert_eq!(block_hash_message(&bare).len(), 8 + 16 + 16);
}
