use magellan::algorithms::{CodeGraph, CycleKind, GraphQueryError, SliceDirection, SymbolRecord};
use magellan::ast_node::AstNode;
use magellan::ast_ops::AstRow;
use magellan::call_graph::{reachable_from, CallGraph};
use magellan::paths::{enumerate_entity_paths, PathEnumerationConfig};
use magellan::scc::{collapse_sccs, strongly_connected_components};
use ahash::AHashSet;

fn record(id: i64, name: &str, file: &str) -> SymbolRecord {
    SymbolRecord {
        entity_id: id,
        symbol_id: Some(format!("sid_{}", name)),
        fqn: Some(format!("crate::{}", name)),
        display_fqn: None,
        canonical_fqn: Some(format!("crate::{}::Function {}", file, name)),
        file_path: Some(file.to_string()),
        kind: "Function".to_string(),
    }
}

fn graph_of(edges: &[(i64, i64)], n: i64) -> CallGraph {
    let nodes: Vec<i64> = (1..=n).collect();
    let mut outgoing = vec![Vec::new(); n as usize];
    let mut incoming = vec![Vec::new(); n as usize];
    for &(a, b) in edges {
        outgoing[(a - 1) as usize].push(b);
        incoming[(b - 1) as usize].push(a);
    }
    CallGraph { nodes, outgoing, incoming }
}

// main(1) -> helper_a(2) -> leaf(4); main -> helper_b(3) -> leaf; unused(5) -> leaf
fn sample() -> CodeGraph {
    let graph = graph_of(&[(1, 2), (1, 3), (2, 4), (3, 4), (5, 4)], 5);
    let symbols = vec![
        record(1, "main", "src/main.rs"),
        record(2, "helper_a", "src/a.rs"),
        record(3, "helper_b", "src/b.rs"),
        record(4, "leaf", "src/a.rs"),
        record(5, "unused_function", "src/main.rs"),
    ];
    CodeGraph { graph, symbols, call_entities: vec![1, 2, 3, 4, 5], file_index: Vec::new(), ast_nodes: Vec::new() }
}

fn fqns(v: &[magellan::algorithms::SymbolInfo]) -> Vec<String> {
    v.iter().map(|s| s.fqn.clone().unwrap()).collect()
}

#[test]
fn resolve_by_stable_id_then_by_name() {
    let g = sample();
    assert_eq!(g.resolve_symbol_entity("sid_leaf"), Ok(4));
    assert_eq!(g.resolve_symbol_entity("crate::helper_b"), Ok(3));
    assert_eq!(g.resolve_symbol_entity("crate::src/a.rs::Function leaf"), Ok(4));
    assert_eq!(
        g.resolve_symbol_entity("nonexistent_id_123456789012"),
        Err(GraphQueryError::SymbolNotFound("nonexistent_id_123456789012".to_string()))
    );
}

#[test]
fn symbol_info_uses_display_name_and_unknown_file() {
    let mut g = sample();
    g.symbols.push(SymbolRecord {
        entity_id: 9,
        symbol_id: None,
        fqn: None,
        display_fqn: Some("shown".to_string()),
        canonical_fqn: None,
        file_path: None,
        kind: "Method".to_string(),
    });
    let info = g.symbol_by_entity_id(9).unwrap();
    assert_eq!(info.fqn, Some("shown".to_string()));
    assert_eq!(info.file_path, "?");
    assert_eq!(g.symbol_by_entity_id(42), Err(GraphQueryError::NotASymbol(42)));
}

#[test]
fn reachable_symbols_leave_out_the_start_and_sort_by_file() {
    let g = sample();
    let r = g.reachable_symbols("crate::main", None).unwrap();
    assert_eq!(fqns(&r), vec!["crate::helper_a", "crate::leaf", "crate::helper_b"]);
    assert!(g.reachable_symbols("nope", Some(3)).is_err());
}

#[test]
fn depth_limits_count_calls() {
    let g = sample();
    let one = g.reachable_symbols("crate::main", Some(1)).unwrap();
    assert_eq!(fqns(&one), vec!["crate::helper_a", "crate::helper_b"]);
    let two = g.reachable_symbols("crate::main", Some(2)).unwrap();
    assert_eq!(fqns(&two), vec!["crate::helper_a", "crate::leaf", "crate::helper_b"]);
    assert!(g.reachable_symbols("crate::main", Some(0)).unwrap().is_empty());
    let back = g.reverse_reachable_symbols("sid_leaf", Some(1)).unwrap();
    assert_eq!(fqns(&back), vec!["crate::helper_a", "crate::helper_b", "crate::unused_function"]);
}

#[test]
fn reverse_reachable_symbols_are_the_callers() {
    let g = sample();
    let r = g.reverse_reachable_symbols("sid_leaf", None).unwrap();
    assert_eq!(fqns(&r), vec!["crate::helper_a", "crate::helper_b", "crate::main", "crate::unused_function"]);
}

#[test]
fn dead_symbols_are_those_main_does_not_reach() {
    let g = sample();
    let dead = g.dead_symbols("crate::main").unwrap();
    assert_eq!(dead.len(), 1);
    assert_eq!(dead[0].symbol.fqn, Some("crate::unused_function".to_string()));
    assert_eq!(dead[0].reason, "unreachable from entry point");
}

#[test]
fn slices_follow_calls_both_ways() {
    let g = sample();
    let f = g.forward_slice("crate::helper_a").unwrap();
    assert_eq!(f.slice.direction, SliceDirection::Forward);
    assert_eq!(f.slice.target.fqn, Some("crate::helper_a".to_string()));
    assert_eq!(fqns(&f.slice.included_symbols), vec!["crate::leaf"]);
    assert_eq!(f.slice.included_symbols, g.reachable_symbols("crate::helper_a", None).unwrap());
    assert_eq!(g.backward_slice("sid_leaf").unwrap().slice.included_symbols, g.reverse_reachable_symbols("sid_leaf", None).unwrap());
    assert_eq!((f.statistics.total_symbols, f.statistics.data_dependencies, f.statistics.control_dependencies), (1, 0, 1));
    let b = g.backward_slice("crate::helper_a").unwrap();
    assert_eq!(b.slice.direction, SliceDirection::Backward);
    assert_eq!(fqns(&b.slice.included_symbols), vec!["crate::main"]);
    assert_eq!(b.slice.symbol_count, 1);
}

fn cyclic() -> CodeGraph {
    // a(1) <-> b(2) -> c(3); d(4) alone
    let graph = graph_of(&[(1, 2), (2, 1), (2, 3)], 4);
    let symbols = vec![record(1, "a", "x.rs"), record(2, "b", "x.rs"), record(3, "c", "x.rs"), record(4, "d", "x.rs")];
    CodeGraph { graph, symbols, call_entities: vec![1, 2, 3], file_index: Vec::new(), ast_nodes: Vec::new() }
}

#[test]
fn cycles_are_components_of_two_or_more() {
    let g = cyclic();
    let report = g.detect_cycles().unwrap();
    assert_eq!(report.total_count, 1);
    assert_eq!(report.cycles[0].kind, CycleKind::MutualRecursion);
    let mut names = fqns(&report.cycles[0].members);
    names.sort();
    assert_eq!(names, vec!["crate::a", "crate::b"]);
    assert_eq!(g.find_cycles_containing("crate::a").unwrap().len(), 1);
    let mut found = fqns(&g.find_cycles_containing("crate::b").unwrap()[0].members);
    found.sort();
    assert_eq!(found, names);
    assert!(g.find_cycles_containing("crate::c").unwrap().is_empty());
    assert_eq!(g.detect_cycles().unwrap().total_count, sample().detect_cycles().unwrap().total_count + 1);
}

#[test]
fn a_symbol_calling_itself_is_a_self_loop() {
    // r(1) -> r, r -> s(2)
    let graph = graph_of(&[(1, 1), (1, 2)], 2);
    let symbols = vec![record(1, "r", "x.rs"), record(2, "s", "x.rs")];
    let g = CodeGraph { graph, symbols, call_entities: vec![1, 2], file_index: Vec::new(), ast_nodes: Vec::new() };
    let report = g.detect_cycles().unwrap();
    assert_eq!(report.total_count, 1);
    assert_eq!(report.cycles[0].kind, CycleKind::SelfLoop);
    assert_eq!(fqns(&report.cycles[0].members), vec!["crate::r"]);
    let found = g.find_cycles_containing("crate::r").unwrap();
    assert_eq!(found.len(), 1);
    assert_eq!(found[0].kind, CycleKind::SelfLoop);
    assert!(g.find_cycles_containing("crate::s").unwrap().is_empty());
}

#[test]
fn strongly_connected_components_partition_the_graph() {
    let g = cyclic();
    let scc = strongly_connected_components(&g.graph);
    let mut comps: Vec<Vec<i64>> = scc.components.iter().map(|c| { let mut c = c.clone(); c.sort(); c }).collect();
    comps.sort();
    assert_eq!(comps, vec![vec![1, 2], vec![3], vec![4]]);
    for (i, c) in scc.components.iter().enumerate() {
        for v in c {
            assert_eq!(scc.node_to_component[v], i);
        }
    }
}

#[test]
fn condensation_joins_components_without_cycles() {
    let g = cyclic();
    let scc = strongly_connected_components(&g.graph);
    let collapse = collapse_sccs(&g.graph, &scc);
    assert_eq!(collapse.num_sccs, 3);
    let r = g.condense_call_graph().unwrap();
    assert_eq!(r.graph.supernodes.len(), 3);
    let ids: Vec<i64> = r.graph.supernodes.iter().map(|s| s.id).collect();
    let mut sorted = ids.clone();
    sorted.sort();
    assert_eq!(ids, sorted);
    assert_eq!(r.graph.edges.len(), 1);
    let (from, to) = r.graph.edges[0];
    assert_eq!(to, 3);
    assert!(from == 1 || from == 2);
    assert_eq!(r.original_to_supernode.get("sid_a"), r.original_to_supernode.get("sid_b"));
    assert!(r.original_to_supernode.get("sid_a").is_some());
    assert_eq!(r.original_to_supernode.get("sid_c"), Some(&3));
    assert_eq!(r.original_to_supernode.len(), 4);
}

#[test]
fn reachable_from_lists_each_reached_id_once_start_first() {
    let g = sample();
    let r = reachable_from(&g.graph, 1, true);
    assert_eq!(r[0], 1);
    let mut s = r.clone();
    s.sort();
    assert_eq!(s, vec![1, 2, 3, 4]);
    let back = reachable_from(&g.graph, 4, false);
    assert_eq!(back.len(), 5);
    assert_eq!(reachable_from(&g.graph, 77, true), vec![77]);
}

#[test]
fn paths_from_main_end_at_leaves_or_the_exit() {
    let g = sample();
    let config = PathEnumerationConfig { max_depth: 10, max_paths: 10, revisit_cap: 100, exit_nodes: None };
    let found = enumerate_entity_paths(&g.graph, 1, &config);
    assert_eq!(found.paths, vec![vec![1, 2, 4], vec![1, 3, 4]]);
    assert_eq!(found.total_found, 2);
    let capped = PathEnumerationConfig { max_depth: 10, max_paths: 1, revisit_cap: 100, exit_nodes: None };
    let f2 = enumerate_entity_paths(&g.graph, 1, &capped);
    assert_eq!((f2.paths.len(), f2.total_found), (1, 2));
    let shallow = PathEnumerationConfig { max_depth: 1, max_paths: 10, revisit_cap: 100, exit_nodes: None };
    let f3 = enumerate_entity_paths(&g.graph, 1, &shallow);
    assert_eq!((f3.paths.len(), f3.pruned_by_bounds), (0, 2));
    let mut exits = AHashSet::new();
    exits.insert(3);
    let to_b = PathEnumerationConfig { max_depth: 10, max_paths: 10, revisit_cap: 100, exit_nodes: Some(exits) };
    assert_eq!(enumerate_entity_paths(&g.graph, 1, &to_b).paths, vec![vec![1, 3]]);
}

#[test]
fn revisit_cap_bounds_passes_through_a_cycle() {
    // 1 -> 2 -> 1, 2 -> 3
    let graph = graph_of(&[(1, 2), (2, 1), (2, 3)], 3);
    let once = PathEnumerationConfig { max_depth: 10, max_paths: 10, revisit_cap: 1, exit_nodes: None };
    assert_eq!(enumerate_entity_paths(&graph, 1, &once).paths, vec![vec![1, 2, 3]]);
    let twice = PathEnumerationConfig { max_depth: 10, max_paths: 10, revisit_cap: 2, exit_nodes: None };
    let found = enumerate_entity_paths(&graph, 1, &twice);
    assert_eq!(found.paths, vec![vec![1, 2, 1, 2, 3], vec![1, 2, 3]]);
    assert_eq!(found.total_found, 2);
}

#[test]
fn enumerate_paths_reports_symbols_and_lengths() {
    let g = sample();
    let r = g.enumerate_paths("crate::main", None, 50, 100).unwrap();
    assert_eq!(r.paths.len(), 2);
    assert_eq!((r.total_enumerated, r.bounded_hit, r.min_length, r.max_length), (2, false, 3, 3));
    assert_eq!(r.unique_symbols, 4);
    for p in &r.paths {
        assert_eq!(p.length, p.symbols.len());
        assert_eq!(p.symbols[0].fqn, Some("crate::main".to_string()));
    }
    let kept_one = g.enumerate_paths("crate::main", None, 50, 1).unwrap();
    assert_eq!((kept_one.paths.len(), kept_one.total_enumerated, kept_one.bounded_hit), (1, 2, true));
    let exact = g.enumerate_paths("crate::main", None, 2, 100).unwrap();
    assert_eq!((exact.paths.len(), exact.bounded_hit), (2, false));
    let cut = g.enumerate_paths("crate::main", None, 1, 100).unwrap();
    assert_eq!((cut.paths.len(), cut.bounded_hit), (0, true));
    let to = g.enumerate_paths("crate::main", Some("crate::helper_b"), 50, 100).unwrap();
    assert_eq!(to.paths.len(), 1);
    assert!(g.enumerate_paths("crate::main", Some("missing"), 50, 100).is_err());
}

#[test]
fn ast_queries_over_stored_nodes() {
    let mut g = sample();
    g.file_index = vec![("src/main.rs".to_string(), 10)];
    let node = |id: i64, parent: Option<i64>, kind: &str, s: usize, e: usize| {
        let mut n = AstNode::new(parent, kind, s, e);
        n.id = Some(id);
        n
    };
    g.ast_nodes = vec![
        AstRow { file_id: Some(10), node: node(1, None, "function_item", 0, 100) },
        AstRow { file_id: Some(10), node: node(2, Some(1), "block", 10, 90) },
        AstRow { file_id: Some(11), node: node(3, Some(2), "if_expression", 20, 80) },
        AstRow { file_id: Some(10), node: node(4, None, "if_expression", 200, 300) },
    ];
    assert_eq!(g.count_ast_nodes().unwrap(), 4);
    let children = g.get_ast_children(1).unwrap();
    assert_eq!(children.len(), 1);
    assert_eq!(children[0].kind, "block");
    assert_eq!(g.get_ast_nodes_by_kind("if_expression").unwrap().len(), 2);
    assert_eq!(g.get_ast_roots().unwrap().len(), 2);
    let by_file = g.get_ast_nodes_by_file("src/main.rs").unwrap();
    assert_eq!(by_file.len(), 3);
    assert!(by_file.iter().all(|w| w.text.is_none()));
    assert!(g.get_ast_nodes_by_file("src/other.rs").unwrap().is_empty());
    assert_eq!(g.get_ast_node_at_position("src/main.rs", 25).unwrap().unwrap().kind, "block");
    assert_eq!(g.get_ast_node_at_position("src/main.rs", 5).unwrap().unwrap().kind, "function_item");
    assert!(g.get_ast_node_at_position("src/main.rs", 150).unwrap().is_none());
    // only nodes of another file hold the position
    assert!(g.get_ast_node_at_position("x.rs", 25).unwrap().is_none());
    g.file_index.push(("src/lib.rs".to_string(), 11));
    assert_eq!(g.get_ast_node_at_position("src/lib.rs", 25).unwrap().unwrap().kind, "if_expression");
    // stored out of order, listed by where they start
    g.ast_nodes.push(AstRow { file_id: Some(10), node: node(5, None, "use_declaration", 5, 8) });
    let starts: Vec<usize> = g.get_ast_nodes_by_file("src/main.rs").unwrap().iter().map(|w| w.node.byte_start).collect();
    assert_eq!(starts, vec![0, 5, 10, 200]);
}

#[test]
fn components_come_callees_first() {
    // 1 -> 2 <-> 3 -> 4 <-> 5, 6 -> 1, 4 -> 7
    let g = graph_of(&[(1, 2), (2, 3), (3, 2), (3, 4), (4, 5), (5, 4), (6, 1), (4, 7)], 7);
    let scc = strongly_connected_components(&g);
    assert_eq!(scc.components.len(), 5);
    for (u, outs) in g.outgoing.iter().enumerate() {
        let u = (u + 1) as i64;
        for w in outs {
            assert!(scc.node_to_component[w] <= scc.node_to_component[&u]);
        }
    }
    assert_eq!(scc.node_to_component[&2], scc.node_to_component[&3]);
    assert_eq!(scc.node_to_component[&4], scc.node_to_component[&5]);
    assert_ne!(scc.node_to_component[&1], scc.node_to_component[&2]);
}

#[test]
fn condensation_edges_never_lead_back() {
    let graph = graph_of(&[(1, 2), (2, 3), (3, 2), (3, 4), (4, 5), (5, 4), (6, 1), (4, 7)], 7);
    let symbols = (1..=7).map(|i| record(i, &format!("f{}", i), "x.rs")).collect();
    let g = CodeGraph { graph, symbols, call_entities: (1..=7).collect(), file_index: Vec::new(), ast_nodes: Vec::new() };
    let r = g.condense_call_graph().unwrap();
    assert_eq!(r.graph.supernodes.len(), 5);
    // every walk along the edges ends somewhere new: no edge is on a cycle
    let edges = &r.graph.edges;
    for &(a, _) in edges.iter() {
        let mut frontier = vec![a];
        let mut seen = std::collections::HashSet::new();
        while let Some(x) = frontier.pop() {
            for &(p, q) in edges.iter() {
                if p == x {
                    assert_ne!(q, a);
                    if seen.insert(q) {
                        frontier.push(q);
                    }
                }
            }
        }
    }
}

#[test]
fn well_formedness_is_checked() {
    assert!(sample().is_well_formed());
    assert!(cyclic().graph.is_well_formed());
    let mut bad = cyclic();
    bad.graph.outgoing[0].push(9);
    assert!(!bad.graph.is_well_formed());
    let mut twice = sample();
    twice.symbols.push(record(1, "again", "src/main.rs"));
    assert!(!twice.is_well_formed());
}

fn with_ast_rows(rows: &[(Option<i64>, Option<i64>, &str, usize, usize)]) -> CodeGraph {
    let mut g = sample();
    g.ast_nodes = rows
        .iter()
        .map(|&(id, parent_id, kind, byte_start, byte_end)| AstRow {
            file_id: None,
            node: AstNode { id, parent_id, kind: kind.to_string(), byte_start, byte_end },
        })
        .collect();
    g
}

#[test]
fn test_get_ast_children() {
    let graph = with_ast_rows(&[
        (Some(1), None, "function_item", 0, 100),
        (Some(2), Some(1), "block", 10, 90),
        (Some(3), Some(2), "if_expression", 20, 80),
    ]);
    let children = graph.get_ast_children(1).unwrap();
    assert_eq!(children.len(), 1);
    assert_eq!(children[0].kind, "block");
    let children = graph.get_ast_children(2).unwrap();
    assert_eq!(children.len(), 1);
    assert_eq!(children[0].kind, "if_expression");
}

#[test]
fn test_get_ast_node_at_position() {
    let graph = with_ast_rows(&[(Some(1), None, "block", 0, 100), (Some(2), None, "if_expression", 50, 100)]);
    let node = graph.get_ast_node_at_position("test.rs", 25).unwrap();
    assert!(node.is_some());
    assert_eq!(node.unwrap().kind, "block");
    let node = graph.get_ast_node_at_position("test.rs", 75).unwrap();
    assert!(node.is_some());
    assert_eq!(node.unwrap().kind, "if_expression");
}

#[test]
fn test_get_ast_nodes_by_kind() {
    let graph = with_ast_rows(&[
        (Some(1), None, "if_expression", 0, 100),
        (Some(2), None, "block", 100, 200),
        (Some(3), None, "if_expression", 200, 300),
    ]);
    assert_eq!(graph.get_ast_nodes_by_kind("if_expression").unwrap().len(), 2);
    assert_eq!(graph.get_ast_nodes_by_kind("block").unwrap().len(), 1);
}

#[test]
fn test_count_ast_nodes() {
    let graph = with_ast_rows(&[]);
    assert_eq!(graph.count_ast_nodes().unwrap(), 0);
    let graph = with_ast_rows(&[(None, None, "block", 0, 100), (None, None, "if_expression", 100, 200)]);
    assert_eq!(graph.count_ast_nodes().unwrap(), 2);
}

#[test]
fn algorithms_tests_test_resolve_symbol_entity_not_found() {
    let graph = sample();
    let result = graph.resolve_symbol_entity("nonexistent_id_123456789012");
    assert!(result.is_err());
}

fn check_symbol_by_entity_id(graph: &CodeGraph) {
    let symbol_id = graph.symbols[0].entity_id;
    let info = graph.symbol_by_entity_id(symbol_id);
    assert!(info.is_ok());
    let symbol_info = info.unwrap();
    assert!(!symbol_info.file_path.is_empty());
    assert!(!symbol_info.kind.is_empty());
}

#[test]
fn algorithms_test_symbol_by_entity_id() {
    check_symbol_by_entity_id(&sample());
}

#[test]
fn algorithms_tests_test_symbol_by_entity_id() {
    check_symbol_by_entity_id(&cyclic());
}

#[test]
fn algorithms_test_resolve_symbol_entity_not_found() {
    let graph = cyclic();
    let result = graph.resolve_symbol_entity("nonexistent_id_123456789012");
    assert!(result.is_err());
}
