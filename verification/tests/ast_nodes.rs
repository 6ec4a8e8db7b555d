use magellan::syntax::SyntaxNode;
use magellan::ast_extractor::{language_from_path, normalize_node_kind};
use magellan::ast_node::{is_structural_kind, AstNode, AstNodeWithText};

#[test]
fn test_normalize_if_expression() {
    assert_eq!(normalize_node_kind("if_expression", "rust"), "If");
    assert_eq!(normalize_node_kind("if_statement", "python"), "If");
}

#[test]
fn test_normalize_function() {
    assert_eq!(normalize_node_kind("function_item", "rust"), "Function");
    assert_eq!(normalize_node_kind("function_definition", "python"), "Function");
}

#[test]
fn test_normalize_unknown() {
    assert_eq!(normalize_node_kind("unknown_kind", "rust"), "unknown_kind");
}

#[test]
fn test_language_from_path() {
    assert_eq!(language_from_path("src/main.rs"), Some("rust"));
    assert_eq!(language_from_path("script.py"), Some("python"));
    assert_eq!(language_from_path("header.h"), Some("c"));
    assert_eq!(language_from_path("file.cpp"), Some("cpp"));
    assert_eq!(language_from_path("Main.java"), Some("java"));
    assert_eq!(language_from_path("app.js"), Some("javascript"));
    assert_eq!(language_from_path("app.ts"), Some("typescript"));
    assert_eq!(language_from_path("unknown.xyz"), None);
}

#[test]
fn test_ast_node_new() {
    let node = AstNode::new(Some(1), "IfExpression", 100, 250);
    assert_eq!(node.id, None);
    assert_eq!(node.parent_id, Some(1));
    assert_eq!(node.kind, "IfExpression");
    assert_eq!(node.byte_start, 100);
    assert_eq!(node.byte_end, 250);
}

#[test]
fn test_ast_node_span() {
    let node = AstNode::new(None, "Block", 50, 150);
    assert_eq!(node.span(), (50, 150));
}

#[test]
fn test_ast_node_contains() {
    let node = AstNode::new(None, "Block", 50, 150);
    assert!(node.contains(50));
    assert!(node.contains(100));
    assert!(!node.contains(150));
    assert!(!node.contains(200));
}

#[test]
fn test_ast_node_len() {
    let node = AstNode::new(None, "Block", 50, 150);
    assert_eq!(node.len(), 100);
}

#[test]
fn test_ast_node_is_empty() {
    let empty = AstNode::new(None, "Empty", 100, 100);
    assert!(empty.is_empty());

    let non_empty = AstNode::new(None, "Block", 100, 200);
    assert!(!non_empty.is_empty());
}

#[test]
fn test_is_structural_kind() {
    assert!(is_structural_kind("if_expression"));
    assert!(is_structural_kind("function_item"));
    assert!(is_structural_kind("block"));
    assert!(is_structural_kind("let_statement"));

    assert!(!is_structural_kind("identifier"));
    assert!(!is_structural_kind("string_literal"));
}

#[test]
fn test_ast_node_with_text_from_node() {
    let node = AstNode::new(None, "IfExpression", 10, 50);
    let with_text = AstNodeWithText::from(node.clone());

    assert_eq!(with_text.node.kind, "IfExpression");
    assert_eq!(with_text.text, None);
}

#[test]
fn test_ast_node_with_text_or() {
    let node = AstNode::new(None, "IfExpression", 10, 50);
    let with_text = AstNodeWithText {
        node,
        text: Some("if x { y }".to_string()),
    };

    assert_eq!(with_text.text_or("<missing>"), "if x { y }");

    let no_text = AstNodeWithText {
        node: AstNode::new(None, "Block", 0, 0),
        text: None,
    };
    assert_eq!(no_text.text_or("<missing>"), "<missing>");
}

fn syntax_of(node: &tree_sitter::Node, field: Option<&str>) -> SyntaxNode {
    let mut cursor = node.walk();
    let mut children = Vec::new();
    if cursor.goto_first_child() {
        loop {
            children.push(syntax_of(&cursor.node(), cursor.field_name()));
            if !cursor.goto_next_sibling() {
                break;
            }
        }
    }
    let (s, e) = (node.start_position(), node.end_position());
    SyntaxNode {
        kind: node.kind().to_string(),
        named: node.is_named(),
        field: field.map(|f| f.to_string()),
        start_byte: node.start_byte(),
        end_byte: node.end_byte(),
        start_row: s.row,
        start_col: s.column,
        end_row: e.row,
        end_col: e.column,
        children,
    }
}

fn parse_rust(source: &[u8]) -> SyntaxNode {
    let mut parser = tree_sitter::Parser::new();
    parser.set_language(&tree_sitter_rust::LANGUAGE.into()).unwrap();
    let tree = parser.parse(source, None).unwrap();
    syntax_of(&tree.root_node(), None)
}

#[test]
fn ast_extractor_test_extract_simple_function() {
    let source = b"fn main() { }";
    let tree = parse_rust(source);
    let nodes = magellan::ast_extractor::extract_ast_nodes(&tree, source);
    assert!(!nodes.is_empty());
    let fn_node = nodes.iter().find(|n| n.kind == "function_item");
    assert!(fn_node.is_some());
}

#[test]
fn test_extract_if_expression() {
    let source = b"fn test() { if x { y } else { z } }";
    let tree = parse_rust(source);
    let nodes = magellan::ast_extractor::extract_ast_nodes(&tree, source);
    let if_nodes: Vec<_> = nodes.iter().filter(|n| n.kind == "if_expression").collect();
    assert!(!if_nodes.is_empty());
}

#[test]
fn test_extract_ignores_identifiers() {
    let source = b"fn main() { let x = 42; }";
    let tree = parse_rust(source);
    let nodes = magellan::ast_extractor::extract_ast_nodes(&tree, source);
    assert!(!nodes.iter().any(|n| n.kind == "identifier"));
    assert!(nodes.iter().any(|n| n.kind == "function_item"));
    assert!(nodes.iter().any(|n| n.kind == "let_declaration"));
}

#[test]
fn test_parent_child_relationships() {
    let source = b"fn main() { if x { y } }";
    let tree = parse_rust(source);
    let nodes = magellan::ast_extractor::extract_ast_nodes(&tree, source);
    let if_node = nodes.iter().find(|n| n.kind == "if_expression");
    assert!(if_node.is_some());
    let if_node = if_node.unwrap();
    assert!(if_node.parent_id.is_some());
}
