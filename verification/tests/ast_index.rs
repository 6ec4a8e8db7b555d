use magellan::algorithms::CodeGraph;
use magellan::ast_extractor::extract_ast_nodes;
use magellan::ast_ops::AstRow;
use magellan::call_graph::CallGraph;
use magellan::syntax::SyntaxNode;

fn syntax_of(node: &tree_sitter::Node, field: Option<&str>) -> SyntaxNode {
    let mut cursor = node.walk();
    let mut children = Vec::new();
    if cursor.goto_first_child() {
        loop {
            children.push(syntax_of(&cursor.node(), cursor.field_name()));
            if !cursor.goto_next_sibling() {
                break;
            }
        }
    }
    let (s, e) = (node.start_position(), node.end_position());
    SyntaxNode {
        kind: node.kind().to_string(),
        named: node.is_named(),
        field: field.map(|f| f.to_string()),
        start_byte: node.start_byte(),
        end_byte: node.end_byte(),
        start_row: s.row,
        start_col: s.column,
        end_row: e.row,
        end_col: e.column,
        children,
    }
}

fn parse_rust(source: &[u8]) -> SyntaxNode {
    let mut parser = tree_sitter::Parser::new();
    parser.set_language(&tree_sitter_rust::LANGUAGE.into()).unwrap();
    let tree = parser.parse(source, None).unwrap();
    syntax_of(&tree.root_node(), None)
}

fn empty_graph() -> CodeGraph {
    CodeGraph {
        graph: CallGraph { nodes: Vec::new(), outgoing: Vec::new(), incoming: Vec::new() },
        symbols: Vec::new(),
        call_entities: Vec::new(),
        file_index: Vec::new(),
        ast_nodes: Vec::new(),
    }
}

// Stores the AST summary of `source` under file `path` as indexing does:
// each node gets the next id, and pending parent links become those ids.
fn index_file(graph: &mut CodeGraph, path: &str, source: &[u8]) {
    let nodes = extract_ast_nodes(&parse_rust(source), source);
    let file_id = match graph.file_index.iter().find(|(p, _)| p == path) {
        Some((_, id)) => *id,
        None => {
            let id = graph.file_index.len() as i64 + 1;
            graph.file_index.push((path.to_string(), id));
            id
        }
    };
    let base = graph.ast_nodes.len() as i64;
    for (k, mut node) in nodes.into_iter().enumerate() {
        node.id = Some(base + k as i64 + 1);
        node.parent_id = node.parent_id.map(|p| base + (-p - 1) + 1);
        graph.ast_nodes.push(AstRow { file_id: Some(file_id), node });
    }
}

fn indexed(path: &str, source: &[u8]) -> CodeGraph {
    let mut graph = empty_graph();
    index_file(&mut graph, path, source);
    graph
}

fn has_kind(graph: &CodeGraph, kind: &str) -> bool {
    !graph.get_ast_nodes_by_kind(kind).unwrap().is_empty()
}

#[test]
fn test_indexing_creates_ast_nodes() {
    let source = r#"
            fn main() {
                if true {
                    println!("hello");
                } else {
                    println!("goodbye");
                }
                for i in 0..10 {
                    println!("{}", i);
                }
                while x > 0 {
                    x -= 1;
                }
                loop {
                    break;
                }
                return 42;
            }
        "#;
    let graph = indexed("test.rs", source.as_bytes());
    assert!(graph.count_ast_nodes().unwrap() > 0, "AST nodes should be created during indexing");
    assert!(has_kind(&graph, "function_item"), "Should have function_item node");
    assert!(has_kind(&graph, "if_expression"), "Should have if_expression node");
    assert!(has_kind(&graph, "for_expression"), "Should have for_expression node");
    assert!(has_kind(&graph, "while_expression"), "Should have while_expression node");
    assert!(has_kind(&graph, "loop_expression"), "Should have loop_expression node");
    assert!(has_kind(&graph, "return_expression"), "Should have return_expression node");
}

#[test]
fn test_reindexing_updates_ast_nodes() {
    let mut graph = empty_graph();
    index_file(&mut graph, "test.rs", b"fn main() { if true { } }");
    let count1 = graph.count_ast_nodes().unwrap();
    assert!(count1 > 0);
    index_file(&mut graph, "test.rs", b"fn main() { loop { break; } }");
    let count2 = graph.count_ast_nodes().unwrap();
    assert!(count2 > 0);
    assert!(count2 >= count1, "Re-indexing should add or maintain nodes");
    assert!(has_kind(&graph, "loop_expression"), "New loop_expression should exist");
}

#[test]
fn test_empty_source_file() {
    let graph = indexed("empty.rs", b"");
    assert_eq!(graph.count_ast_nodes().unwrap(), 0);
}

#[test]
fn test_file_with_only_comments() {
    let graph = indexed("comments.rs", b"// This is a comment\n// Another comment\n");
    assert_eq!(graph.count_ast_nodes().unwrap(), 0);
}

#[test]
fn test_deeply_nested_control_flow() {
    let source = r#"
            fn test() {
                if a {
                    if b {
                        if c {
                            if d {
                                println!("deep");
                            }
                        }
                    }
                }
            }
        "#;
    let graph = indexed("nested.rs", source.as_bytes());
    assert_eq!(graph.get_ast_nodes_by_kind("if_expression").unwrap().len(), 4, "Should have 4 nested if expressions");
}

#[test]
fn test_match_expression() {
    let source = r#"
            fn test(x: i32) {
                match x {
                    1 => println!("one"),
                    2 => println!("two"),
                    _ => println!("other"),
                }
            }
        "#;
    let graph = indexed("match.rs", source.as_bytes());
    assert!(has_kind(&graph, "match_expression"), "Should have match_expression node");
}

#[test]
fn test_get_ast_nodes_by_file() {
    let source = r#"
        fn first() { }
        fn second() { }
        fn third() { }
    "#;
    let graph = indexed("ordered.rs", source.as_bytes());
    let nodes = graph.get_ast_nodes_by_file("ordered.rs").unwrap();
    assert!(!nodes.is_empty(), "Should have AST nodes");
    for i in 1..nodes.len() {
        assert!(nodes[i].node.byte_start >= nodes[i - 1].node.byte_start, "Nodes should be ordered by byte_start");
    }
}

#[test]
fn test_multiple_files_separate_asts() {
    let mut graph = empty_graph();
    index_file(&mut graph, "file1.rs", b"fn foo() { if true { } }");
    index_file(&mut graph, "file2.rs", b"fn bar() { loop { break; } }");
    assert!(graph.count_ast_nodes().unwrap() > 0, "Should have AST nodes from both files");
    assert!(has_kind(&graph, "if_expression"), "Should have if_expression from file1");
    assert!(has_kind(&graph, "loop_expression"), "Should have loop_expression from file2");
    let first = graph.get_ast_nodes_by_file("file1.rs").unwrap();
    assert!(first.iter().all(|n| n.node.kind != "loop_expression"));
}

#[test]
fn test_let_declaration_captured() {
    let graph = indexed("let_test.rs", b"fn main() { let x = 42; }");
    assert!(has_kind(&graph, "let_declaration"), "Should capture let_declaration");
}

#[test]
fn test_block_expressions_captured() {
    let graph = indexed("block_test.rs", b"fn main() { let x = { 1 + 2 }; }");
    assert!(has_kind(&graph, "block"), "Should capture block expressions");
}

#[test]
fn test_call_expression_captured() {
    let graph = indexed("call_test.rs", b"fn main() { foo(); bar(); }");
    assert!(has_kind(&graph, "call_expression"), "Should capture call_expression");
}

#[test]
fn test_assignment_expression_captured() {
    let graph = indexed("assign_test.rs", b"fn main() { let mut x = 1; x = 2; }");
    assert!(has_kind(&graph, "assignment_expression"), "Should capture assignment_expression");
}

#[test]
fn test_struct_enum_captured() {
    let source = r#"
        struct Foo;
        enum Bar { A, B }
    "#;
    let graph = indexed("definitions.rs", source.as_bytes());
    assert!(has_kind(&graph, "struct_item"), "Should capture struct_item");
    assert!(has_kind(&graph, "enum_item"), "Should capture enum_item");
}

#[test]
fn test_impl_trait_captured() {
    let source = r#"
        trait MyTrait { }
        impl MyTrait for Foo { }
    "#;
    let graph = indexed("trait_test.rs", source.as_bytes());
    assert!(has_kind(&graph, "trait_item"), "Should capture trait_item");
    assert!(has_kind(&graph, "impl_item"), "Should capture impl_item");
}

#[test]
fn test_mod_item_captured() {
    let graph = indexed("mod_test.rs", b"mod my_mod;");
    assert!(has_kind(&graph, "mod_item"), "Should capture mod_item");
}

#[test]
fn test_const_static_captured() {
    let source = r#"
        const MAX: i32 = 100;
        static COUNTER: AtomicUsize = AtomicUsize::new(0);
    "#;
    let graph = indexed("const_test.rs", source.as_bytes());
    assert!(has_kind(&graph, "const_item"), "Should capture const_item");
    assert!(has_kind(&graph, "static_item"), "Should capture static_item");
}

#[test]
fn test_break_continue_captured() {
    let graph = indexed("break_continue_test.rs", b"fn main() { loop { if x { break; } else { continue; } } }");
    assert!(has_kind(&graph, "break_expression"), "Should capture break_expression");
    assert!(has_kind(&graph, "continue_expression"), "Should capture continue_expression");
}

fn stored(rows: &[(i64, Option<i64>, &str, usize, usize)]) -> CodeGraph {
    let mut graph = empty_graph();
    for &(id, parent_id, kind, byte_start, byte_end) in rows {
        graph.ast_nodes.push(AstRow {
            file_id: None,
            node: magellan::ast_node::AstNode { id: Some(id), parent_id, kind: kind.to_string(), byte_start, byte_end },
        });
    }
    graph
}

#[test]
fn test_position_based_queries() {
    let graph = stored(&[(1, None, "block", 0, 200), (2, Some(1), "if_expression", 50, 150), (3, Some(2), "block", 60, 100)]);
    let node = graph.get_ast_node_at_position("test.rs", 25).unwrap();
    assert!(node.is_some());
    assert_eq!(node.unwrap().kind, "block");
    let node = graph.get_ast_node_at_position("test.rs", 75).unwrap();
    assert!(node.is_some());
    assert_eq!(node.unwrap().kind, "block");
    let node = graph.get_ast_node_at_position("test.rs", 120).unwrap();
    assert!(node.is_some());
    assert_eq!(node.unwrap().kind, "if_expression");
}

#[test]
fn test_get_ast_roots() {
    let graph = stored(&[
        (1, None, "function_item", 0, 100),
        (2, Some(1), "block", 10, 90),
        (3, None, "struct_item", 100, 200),
        (4, Some(3), "block", 110, 190),
    ]);
    let roots = graph.get_ast_roots().unwrap();
    assert_eq!(roots.len(), 2);
    let kinds: Vec<_> = roots.iter().map(|n| n.kind.as_str()).collect();
    assert!(kinds.contains(&"function_item"));
    assert!(kinds.contains(&"struct_item"));
}
