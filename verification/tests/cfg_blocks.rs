use magellan::cfg_extractor::CfgExtractor;
use magellan::syntax::SyntaxNode;

fn syntax_of(node: &tree_sitter::Node, field: Option<&str>) -> SyntaxNode {
    let mut cursor = node.walk();
    let mut children = Vec::new();
    if cursor.goto_first_child() {
        loop {
            children.push(syntax_of(&cursor.node(), cursor.field_name()));
            if !cursor.goto_next_sibling() {
                break;
            }
        }
    }
    let (s, e) = (node.start_position(), node.end_position());
    SyntaxNode {
        kind: node.kind().to_string(),
        named: node.is_named(),
        field: field.map(|f| f.to_string()),
        start_byte: node.start_byte(),
        end_byte: node.end_byte(),
        start_row: s.row,
        start_col: s.column,
        end_row: e.row,
        end_col: e.column,
        children,
    }
}

fn parse_rust(source: &[u8]) -> SyntaxNode {
    let mut parser = tree_sitter::Parser::new();
    parser.set_language(&tree_sitter_rust::LANGUAGE.into()).unwrap();
    let tree = parser.parse(source, None).unwrap();
    syntax_of(&tree.root_node(), None)
}

fn find_first_function(tree: &SyntaxNode) -> Option<&SyntaxNode> {
    tree.children.iter().find(|c| c.kind == "function_item")
}

#[test]
fn cfg_extractor_test_extract_simple_function() {
    let source = b"fn main() { let x = 1; }";
    let tree = parse_rust(source);
    let func = find_first_function(&tree).unwrap();

    let mut extractor = CfgExtractor::new(source);
    let blocks = extractor.extract_cfg_from_function(&func, 1);

    // Should have at least an entry block
    assert!(!blocks.is_empty());
    assert_eq!(blocks[0].kind, "entry");
}

#[test]
fn test_extract_if_function() {
    let source = b"fn test() { if x { y } else { z } }";
    let tree = parse_rust(source);
    let func = find_first_function(&tree).unwrap();

    let mut extractor = CfgExtractor::new(source);
    let blocks = extractor.extract_cfg_from_function(&func, 1);

    // Should have entry, if, and/or else blocks
    assert!(!blocks.is_empty());
    let if_blocks: Vec<_> = blocks.iter().filter(|b| b.kind == "if").collect();
    assert!(!if_blocks.is_empty());
}

#[test]
fn test_extract_loop_function() {
    let source = b"fn test() { loop { break; } }";
    let tree = parse_rust(source);
    let func = find_first_function(&tree).unwrap();

    let mut extractor = CfgExtractor::new(source);
    let blocks = extractor.extract_cfg_from_function(&func, 1);

    // Should have loop block
    assert!(!blocks.is_empty());
    let loop_blocks: Vec<_> = blocks.iter().filter(|b| b.kind == "loop").collect();
    assert!(!loop_blocks.is_empty());
}

#[test]
fn test_extract_return() {
    let source = b"fn test() { return 42; }";
    let tree = parse_rust(source);
    let func = find_first_function(&tree).unwrap();

    let mut extractor = CfgExtractor::new(source);
    let blocks = extractor.extract_cfg_from_function(&func, 1);

    // Should have return block
    assert!(!blocks.is_empty());
    let return_blocks: Vec<_> = blocks.iter().filter(|b| b.kind == "return").collect();
    assert!(!return_blocks.is_empty());
    assert_eq!(return_blocks[0].terminator, "return");
}

#[test]
fn test_extract_match() {
    let source = b"fn test(x: i32) { match x { 1 => {}, _ => {} } }";
    let tree = parse_rust(source);
    let func = find_first_function(&tree).unwrap();

    let mut extractor = CfgExtractor::new(source);
    let blocks = extractor.extract_cfg_from_function(&func, 1);

    // Should have match_arm blocks
    assert!(!blocks.is_empty());
    let match_arms: Vec<_> = blocks.iter().filter(|b| b.kind == "match_arm").collect();
    assert!(!match_arms.is_empty());
}

#[test]
fn test_extract_while_loop() {
    let source = b"fn test() { while x { y } }";
    let tree = parse_rust(source);
    let func = find_first_function(&tree).unwrap();

    let mut extractor = CfgExtractor::new(source);
    let blocks = extractor.extract_cfg_from_function(&func, 1);

    // Should have while block
    assert!(!blocks.is_empty());
    let while_blocks: Vec<_> = blocks.iter().filter(|b| b.kind == "while").collect();
    assert!(!while_blocks.is_empty());
}

#[test]
fn test_extract_for_loop() {
    let source = b"fn test() { for x in y { z } }";
    let tree = parse_rust(source);
    let func = find_first_function(&tree).unwrap();

    let mut extractor = CfgExtractor::new(source);
    let blocks = extractor.extract_cfg_from_function(&func, 1);

    // Should have for block
    assert!(!blocks.is_empty());
    let for_blocks: Vec<_> = blocks.iter().filter(|b| b.kind == "for").collect();
    assert!(!for_blocks.is_empty());
}

#[test]
fn test_extract_break() {
    let source = b"fn test() { loop { break; } }";
    let tree = parse_rust(source);
    let func = find_first_function(&tree).unwrap();

    let mut extractor = CfgExtractor::new(source);
    let blocks = extractor.extract_cfg_from_function(&func, 1);

    // Should have break block
    assert!(!blocks.is_empty());
    let break_blocks: Vec<_> = blocks.iter().filter(|b| b.kind == "break").collect();
    assert!(!break_blocks.is_empty());
    assert_eq!(break_blocks[0].terminator, "break");
}

#[test]
fn test_extract_continue() {
    let source = b"fn test() { loop { continue; } }";
    let tree = parse_rust(source);
    let func = find_first_function(&tree).unwrap();

    let mut extractor = CfgExtractor::new(source);
    let blocks = extractor.extract_cfg_from_function(&func, 1);

    // Should have continue block
    assert!(!blocks.is_empty());
    let continue_blocks: Vec<_> = blocks.iter().filter(|b| b.kind == "continue").collect();
    assert!(!continue_blocks.is_empty());
    assert_eq!(continue_blocks[0].terminator, "continue");
}

#[test]
fn test_extract_nested_if() {
    let source = b"fn test() { if x { if y { z } } }";
    let tree = parse_rust(source);
    let func = find_first_function(&tree).unwrap();

    let mut extractor = CfgExtractor::new(source);
    let blocks = extractor.extract_cfg_from_function(&func, 1);

    // Should have multiple if blocks
    assert!(!blocks.is_empty());
    let if_blocks: Vec<_> = blocks.iter().filter(|b| b.kind == "if").collect();
    assert!(if_blocks.len() >= 2);
}

#[test]
fn test_extract_else_if() {
    let source = b"fn test() { if x { y } else if z { w } }";
    let tree = parse_rust(source);
    let func = find_first_function(&tree).unwrap();

    let mut extractor = CfgExtractor::new(source);
    let blocks = extractor.extract_cfg_from_function(&func, 1);

    // Should have if blocks
    assert!(!blocks.is_empty());
    let if_blocks: Vec<_> = blocks.iter().filter(|b| b.kind == "if").collect();
    assert!(!if_blocks.is_empty());
}
