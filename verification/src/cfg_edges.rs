//! Control-flow graph extraction from a function's syntax tree: blocks for
//! statements and control constructs, and the edges between them. Every
//! function here is proved to build exactly the graph that `cfg_model`
//! describes.

use vstd::prelude::*;
use vstd::string::StringSliceAdditionalSpecFns;
use crate::syntax::SyntaxNode;
use crate::text::{str_eq, chars_of, trim_bounds, string_from_range, trim};
use crate::syntax::{parse_source, parsed_tree};
use crate::cfg_laws::lemma_function_graph_edges_in;
use crate::cfg_model::{CfgBlock, CfgEdge, CfgEdgeType, LoopScope, CfgState, BlockView, ArmsResult, block_views,
    opt_text, find_fn, find_fn_in, is_function_kind, FnLocation, spans_ok, node_text, cfg_text, cfg_attr_from,
    cfg_condition_before, cfg_condition_of, no_loop, no_edge_from_entry, function_graph, with_condition,
    fn_body_pred, first_child_where, kind_pred, source_text,
    height, positions_fit, node_block, end_block, simple_stmt, link_prev, cfg_node, cfg_seq, cfg_relevant,
    cfg_each_from, cfg_let_else, cfg_if, cfg_loop, cfg_arms, cfg_match, cfg_short_circuit, cfg_default,
    guard_false_edges, merge_edges, sat_dec, arms_of, arms_here, arm_pred, case_pred, lemma_child_lt,
    lemma_else_body_lt, lemma_arms_lt, lemma_heights_bound};
use crate::cfg_scan::{is_if_kind_exec, is_loop_kind_exec, is_switch_kind_exec, is_binding_kind_exec,
    is_let_kind_exec, is_assign_kind_exec, is_cfg_relevant_expression, binding_block_kind_exec,
    loop_block_kind_exec, short_circuit_op, first_of_kind, first_body, first_loop_body, first_named,
    named_after_kind, child_by_field, find_else_body, collect_arms, find_arm_guard, source_slice, as_opt_int};

verus! {

broadcast use vstd::string::group_string_axioms;

/// The extraction state held by a block list, an edge list and the current
/// block.
pub open spec fn state_of(blocks: Seq<CfgBlock>, edges: Seq<CfgEdge>, prev: Option<usize>) -> CfgState {
    CfgState { blocks: block_views(blocks), edges, prev }
}

/// Two extraction states hold the same blocks, edges and current block.
pub open spec fn same_state(a: CfgState, b: CfgState) -> bool {
    a.blocks =~= b.blocks && a.edges =~= b.edges && a.prev == b.prev
}

/// The block spanning node `n`.
fn block_at(n: &SyntaxNode, fid: i64, kind: &str, term: &str) -> (b: CfgBlock)
    requires
        n.start_row < u64::MAX,
        n.end_row < u64::MAX,
    ensures
        b@ == node_block(*n, fid as int, kind@, term@),
{
    CfgBlock {
        function_id: fid,
        kind: kind.to_owned(),
        terminator: term.to_owned(),
        byte_start: n.start_byte as u64,
        byte_end: n.end_byte as u64,
        start_line: n.start_row as u64 + 1,
        start_col: n.start_col as u64,
        end_line: n.end_row as u64 + 1,
        end_col: n.end_col as u64,
        cfg_hash: None,
        statements: None,
        cfg_condition: None,
    }
}

/// An empty block at the end of node `n`.
fn end_block_at(n: &SyntaxNode, fid: i64, kind: &str) -> (b: CfgBlock)
    requires
        n.end_row < u64::MAX,
    ensures
        b@ == end_block(*n, fid as int, kind@),
{
    proof {
        reveal_strlit("fallthrough");
    }
    let line = n.end_row as u64 + 1;
    let col = n.end_col as u64;
    CfgBlock {
        function_id: fid,
        kind: kind.to_owned(),
        terminator: "fallthrough".to_owned(),
        byte_start: n.end_byte as u64,
        byte_end: n.end_byte as u64,
        start_line: line,
        start_col: col,
        end_line: line,
        end_col: col,
        cfg_hash: None,
        statements: None,
        cfg_condition: None,
    }
}

fn add_block(blocks: &mut Vec<CfgBlock>, b: CfgBlock)
    ensures
        block_views(final(blocks)@) =~= block_views(old(blocks)@).push(b@),
        final(blocks)@.len() == old(blocks)@.len() + 1,
{
    let ghost bv = b@;
    blocks.push(b);
    assert(block_views(blocks@) =~= block_views(old(blocks)@).push(bv));
}

fn add_edge(edges: &mut Vec<CfgEdge>, s: usize, t: usize, ty: CfgEdgeType)
    ensures
        final(edges)@ == old(edges)@.push(CfgEdge { source_idx: s, target_idx: t, edge_type: ty }),
{
    edges.push(CfgEdge { source_idx: s, target_idx: t, edge_type: ty });
}

/// Fall-through edge from the current block, if any, to block `t`.
fn link(edges: &mut Vec<CfgEdge>, prev: Option<usize>, t: usize)
    ensures
        final(edges)@ == (match prev {
            Some(p) => old(edges)@.push(CfgEdge { source_idx: p, target_idx: t, edge_type: CfgEdgeType::Fallthrough }),
            None => old(edges)@,
        }),
{
    if let Some(p) = prev {
        add_edge(edges, p, t, CfgEdgeType::Fallthrough);
    }
}

fn sat_dec_exec(i: usize) -> (r: usize)
    ensures
        r == sat_dec(i),
{
    if i > 0 { i - 1 } else { 0 }
}

/// A block for a simple statement, linked from the current block and made
/// the current block.
fn simple(n: &SyntaxNode, fid: i64, kind: &str, term: &str, blocks: &mut Vec<CfgBlock>, edges: &mut Vec<CfgEdge>, prev: &mut Option<usize>)
    requires
        n.start_row < u64::MAX,
        n.end_row < u64::MAX,
    ensures
        same_state(state_of(final(blocks)@, final(edges)@, *final(prev)),
            simple_stmt(*n, fid as int, state_of(old(blocks)@, old(edges)@, *old(prev)), kind@, term@)),
{
    let i = blocks.len();
    add_block(blocks, block_at(n, fid, kind, term));
    link(edges, *prev, i);
    *prev = Some(i);
}

/// Every arm of a match lies in the tree of the match, so its positions fit.
proof fn lemma_arms_fit(n: SyntaxNode)
    requires
        positions_fit(n),
    ensures
        forall|a: int| 0 <= a < arms_of(n.children@).len() ==> positions_fit(#[trigger] arms_of(n.children@)[a]),
{
    lemma_arms_fit_from(n.children@);
}

proof fn lemma_arms_fit_from(cs: Seq<SyntaxNode>)
    requires
        forall|i: int| 0 <= i < cs.len() ==> positions_fit(#[trigger] cs[i]),
    ensures
        forall|a: int| 0 <= a < arms_of(cs).len() ==> positions_fit(#[trigger] arms_of(cs)[a]),
    decreases cs.len(),
{
    if cs.len() > 0 {
        let init = cs.drop_last();
        assert forall|i: int| 0 <= i < init.len() implies positions_fit(#[trigger] init[i]) by {
            assert(init[i] == cs[i]);
        }
        lemma_arms_fit_from(init);
        let c = cs.last();
        assert(positions_fit(cs[cs.len() - 1]));
        let here = arms_here(c);
        let k = c.kind@;
        assert forall|b: int| 0 <= b < here.len() implies positions_fit(#[trigger] here[b]) by {
            if k == "match_block"@ || k == "match_body"@ || k == "switch_body"@ || k == "body"@ {
                assert(c.children@.contains(here[b])) by {
                    assert(here.contains(here[b]));
                    if k == "match_block"@ || k == "match_body"@ {
                        c.children@.lemma_filter_contains_rev(arm_pred(), here[b]);
                    } else {
                        c.children@.lemma_filter_contains_rev(case_pred(), here[b]);
                    }
                }
                let w = choose|w: int| 0 <= w < c.children@.len() && c.children@[w] == here[b];
                assert(positions_fit(c.children@[w]));
            }
        }
        assert forall|a: int| 0 <= a < arms_of(cs).len() implies positions_fit(#[trigger] arms_of(cs)[a]) by {
            if a < arms_of(init).len() {
                assert(arms_of(cs)[a] == arms_of(init)[a]);
            } else {
                assert(arms_of(cs)[a] == here[a - arms_of(init).len()]);
            }
        }
    }
}

/// Extracts node `n` of function `fid` into the graph, from the current
/// block `prev`, inside loop `scope`.
fn extract_blocks_from_node_with_fallthrough(n: &SyntaxNode, fid: i64, src: &str, blocks: &mut Vec<CfgBlock>, edges: &mut Vec<CfgEdge>, prev: &mut Option<usize>, scope: LoopScope)
    requires
        positions_fit(*n),
    ensures
        same_state(state_of(final(blocks)@, final(edges)@, *final(prev)),
            cfg_node(*n, fid as int, src.spec_bytes(), state_of(old(blocks)@, old(edges)@, *old(prev)), scope)),
    decreases height(*n), 5int, 0int,
{
    let k = n.kind.as_str();
    if is_if_kind_exec(k) {
        extract_if_blocks_with_fallthrough(n, fid, src, blocks, edges, prev, scope);
    } else if is_loop_kind_exec(k) {
        extract_loop_blocks_with_fallthrough(n, fid, src, blocks, edges, prev);
    } else if is_switch_kind_exec(k) {
        extract_match_blocks_with_fallthrough(n, fid, src, blocks, edges, prev, scope);
    } else if str_eq(k, "return_expression") || str_eq(k, "return_statement") {
        let i = blocks.len();
        add_block(blocks, block_at(n, fid, "return", "return"));
        link(edges, *prev, i);
        *prev = None;
        add_edge(edges, i, i, CfgEdgeType::Return);
    } else if str_eq(k, "break_expression") || str_eq(k, "break_statement") {
        let i = blocks.len();
        add_block(blocks, block_at(n, fid, "break", "jump"));
        link(edges, *prev, i);
        *prev = None;
        if let Some(x) = scope.exit {
            add_edge(edges, i, x, CfgEdgeType::Jump);
        }
    } else if str_eq(k, "continue_expression") || str_eq(k, "continue_statement") {
        let i = blocks.len();
        add_block(blocks, block_at(n, fid, "continue", "jump"));
        link(edges, *prev, i);
        *prev = None;
        if let Some(h) = scope.header {
            add_edge(edges, i, h, CfgEdgeType::BackEdge);
        }
    } else if str_eq(k, "block") || str_eq(k, "compound_statement") || str_eq(k, "statement_list") {
        extract_seq(n, fid, src, blocks, edges, prev, scope);
    } else if str_eq(k, "call_expression") || str_eq(k, "call_statement") {
        let i = blocks.len();
        add_block(blocks, block_at(n, fid, "call", "call"));
        link(edges, *prev, i);
        add_edge(edges, i, i, CfgEdgeType::Call);
        *prev = Some(i);
    } else if is_binding_kind_exec(k) {
        let is_let = is_let_kind_exec(k);
        let alt = if is_let { child_by_field(&n.children, "alternative") } else { None };
        if is_let && alt.is_some() {
            extract_let_else(n, fid, src, blocks, edges, prev, scope);
        } else {
            simple(n, fid, binding_block_kind_exec(k), "fallthrough", blocks, edges, prev);
        }
        if is_let || is_assign_kind_exec(k) {
            extract_control_flow_children(n, fid, src, blocks, edges, prev, scope);
        }
    } else if str_eq(k, "statement") || str_eq(k, "expression_statement") {
        if n.children.len() == 0 {
        } else if is_cfg_relevant_expression(n.children[0].kind.as_str()) {
            proof { lemma_child_lt(*n, 0); }
            extract_blocks_from_node_with_fallthrough(&n.children[0], fid, src, blocks, edges, prev, scope);
        } else {
            simple(n, fid, "stmt", "fallthrough", blocks, edges, prev);
        }
    } else if str_eq(k, "try_expression") {
        let t = blocks.len();
        add_block(blocks, block_at(n, fid, "try", "conditional"));
        link(edges, *prev, t);
        extract_each_from(n, fid, src, blocks, edges, prev, t, false, "try", scope);
        add_edge(edges, t, t, CfgEdgeType::Return);
    } else if str_eq(k, "await_expression") {
        let a = blocks.len();
        add_block(blocks, block_at(n, fid, "await", "fallthrough"));
        link(edges, *prev, a);
        extract_each_from(n, fid, src, blocks, edges, prev, a, false, "await", scope);
    } else if str_eq(k, "closure_expression") {
        let c = blocks.len();
        add_block(blocks, block_at(n, fid, "closure", "fallthrough"));
        link(edges, *prev, c);
        if let Some(j) = first_of_kind(&n.children, 0, "block") {
            proof { lemma_child_lt(*n, j as int); }
            let mut tmp: Option<usize> = Some(c);
            extract_blocks_from_node_with_fallthrough(&n.children[j], fid, src, blocks, edges, &mut tmp, scope);
        }
    } else if str_eq(k, "binary_expression") {
        let op = short_circuit_op(n, src);
        if op == 1 {
            extract_short_circuit_blocks(n, fid, src, blocks, edges, prev, scope, true);
        } else if op == 2 {
            extract_short_circuit_blocks(n, fid, src, blocks, edges, prev, scope, false);
        } else {
            extract_default_blocks(n, fid, src, blocks, edges, prev, scope);
        }
    } else if n.children.len() > 0 && !n.named {
        extract_seq(n, fid, src, blocks, edges, prev, scope);
    } else if n.named {
        simple(n, fid, k, "fallthrough", blocks, edges, prev);
    }
}

/// The children of `n` extracted one after the other.
fn extract_seq(n: &SyntaxNode, fid: i64, src: &str, blocks: &mut Vec<CfgBlock>, edges: &mut Vec<CfgEdge>, prev: &mut Option<usize>, scope: LoopScope)
    requires
        positions_fit(*n),
    ensures
        same_state(state_of(final(blocks)@, final(edges)@, *final(prev)),
            cfg_seq(n.children@, fid as int, src.spec_bytes(), state_of(old(blocks)@, old(edges)@, *old(prev)), scope)),
    decreases height(*n), 4int, 0int,
{
    let ghost st0 = state_of(blocks@, edges@, *prev);
    let mut j: usize = 0;
    assert(n.children@.skip(0) =~= n.children@);
    while j < n.children.len()
        invariant
            j <= n.children@.len(),
            positions_fit(*n),
            cfg_seq(n.children@.skip(j as int), fid as int, src.spec_bytes(), state_of(blocks@, edges@, *prev), scope)
                == cfg_seq(n.children@, fid as int, src.spec_bytes(), st0, scope),
        decreases n.children@.len() - j,
    {
        proof {
            lemma_child_lt(*n, j as int);
            assert(n.children@.skip(j as int).drop_first() =~= n.children@.skip(j + 1));
            assert(n.children@.skip(j as int)[0] == n.children@[j as int]);
        }
        extract_blocks_from_node_with_fallthrough(&n.children[j], fid, src, blocks, edges, prev, scope);
        j = j + 1;
    }
    assert(n.children@.skip(j as int) =~= Seq::<SyntaxNode>::empty());
}

/// The children of `n` that are relevant to control flow, extracted one
/// after the other.
fn extract_control_flow_children(n: &SyntaxNode, fid: i64, src: &str, blocks: &mut Vec<CfgBlock>, edges: &mut Vec<CfgEdge>, prev: &mut Option<usize>, scope: LoopScope)
    requires
        positions_fit(*n),
    ensures
        same_state(state_of(final(blocks)@, final(edges)@, *final(prev)),
            cfg_relevant(n.children@, fid as int, src.spec_bytes(), state_of(old(blocks)@, old(edges)@, *old(prev)), scope)),
    decreases height(*n), 4int, 0int,
{
    let ghost st0 = state_of(blocks@, edges@, *prev);
    let mut j: usize = 0;
    assert(n.children@.skip(0) =~= n.children@);
    while j < n.children.len()
        invariant
            j <= n.children@.len(),
            positions_fit(*n),
            cfg_relevant(n.children@.skip(j as int), fid as int, src.spec_bytes(), state_of(blocks@, edges@, *prev), scope)
                == cfg_relevant(n.children@, fid as int, src.spec_bytes(), st0, scope),
        decreases n.children@.len() - j,
    {
        proof {
            lemma_child_lt(*n, j as int);
            assert(n.children@.skip(j as int).drop_first() =~= n.children@.skip(j + 1));
            assert(n.children@.skip(j as int)[0] == n.children@[j as int]);
        }
        if is_cfg_relevant_expression(n.children[j].kind.as_str()) {
            extract_blocks_from_node_with_fallthrough(&n.children[j], fid, src, blocks, edges, prev, scope);
        }
        j = j + 1;
    }
    assert(n.children@.skip(j as int) =~= Seq::<SyntaxNode>::empty());
}

/// Each selected child of `n` extracted from block `from` on its own: the
/// named children when `named_only`, else those whose kind is not `skip`.
fn extract_each_from(n: &SyntaxNode, fid: i64, src: &str, blocks: &mut Vec<CfgBlock>, edges: &mut Vec<CfgEdge>, prev: &mut Option<usize>, from: usize, named_only: bool, skip: &str, scope: LoopScope)
    requires
        positions_fit(*n),
    ensures
        same_state(state_of(final(blocks)@, final(edges)@, *final(prev)),
            cfg_each_from(n.children@, fid as int, src.spec_bytes(), state_of(old(blocks)@, old(edges)@, *old(prev)), from, named_only, skip@, scope)),
    decreases height(*n), 3int, 0int,
{
    let ghost st0 = state_of(blocks@, edges@, *prev);
    let mut j: usize = 0;
    assert(n.children@.skip(0) =~= n.children@);
    while j < n.children.len()
        invariant
            j <= n.children@.len(),
            positions_fit(*n),
            cfg_each_from(n.children@.skip(j as int), fid as int, src.spec_bytes(), state_of(blocks@, edges@, *prev), from, named_only, skip@, scope)
                == cfg_each_from(n.children@, fid as int, src.spec_bytes(), st0, from, named_only, skip@, scope),
        decreases n.children@.len() - j,
    {
        proof {
            lemma_child_lt(*n, j as int);
            assert(n.children@.skip(j as int).drop_first() =~= n.children@.skip(j + 1));
            assert(n.children@.skip(j as int)[0] == n.children@[j as int]);
        }
        let pick = if named_only { n.children[j].named } else { !str_eq(n.children[j].kind.as_str(), skip) };
        if pick {
            let mut tmp: Option<usize> = Some(from);
            extract_blocks_from_node_with_fallthrough(&n.children[j], fid, src, blocks, edges, &mut tmp, scope);
        }
        j = j + 1;
    }
    assert(n.children@.skip(j as int) =~= Seq::<SyntaxNode>::empty());
}

/// `let ... else { ... }`.
fn extract_let_else(n: &SyntaxNode, fid: i64, src: &str, blocks: &mut Vec<CfgBlock>, edges: &mut Vec<CfgEdge>, prev: &mut Option<usize>, scope: LoopScope)
    requires
        positions_fit(*n),
    ensures
        same_state(state_of(final(blocks)@, final(edges)@, *final(prev)),
            cfg_let_else(*n, fid as int, src.spec_bytes(), state_of(old(blocks)@, old(edges)@, *old(prev)), scope)),
    decreases height(*n), 4int, 0int,
{
    let s = blocks.len();
    add_block(blocks, block_at(n, fid, "let_else", "conditional"));
    link(edges, *prev, s);
    let alt_start = blocks.len();
    if let Some(j) = child_by_field(&n.children, "alternative") {
        proof { lemma_child_lt(*n, j as int); }
        let mut tmp: Option<usize> = None;
        extract_blocks_from_node_with_fallthrough(&n.children[j], fid, src, blocks, edges, &mut tmp, scope);
    }
    if alt_start < blocks.len() {
        add_edge(edges, s, alt_start, CfgEdgeType::ConditionalFalse);
    }
    let m = blocks.len();
    add_block(blocks, end_block_at(n, fid, "merge"));
    add_edge(edges, s, m, CfgEdgeType::ConditionalTrue);
    *prev = Some(m);
}

/// `if` / `else`.
fn extract_if_blocks_with_fallthrough(n: &SyntaxNode, fid: i64, src: &str, blocks: &mut Vec<CfgBlock>, edges: &mut Vec<CfgEdge>, prev: &mut Option<usize>, scope: LoopScope)
    requires
        positions_fit(*n),
    ensures
        same_state(state_of(final(blocks)@, final(edges)@, *final(prev)),
            cfg_if(*n, fid as int, src.spec_bytes(), state_of(old(blocks)@, old(edges)@, *old(prev)), scope)),
    decreases height(*n), 4int, 0int,
{
    let then_i = first_body(&n.children, 0);
    let els = find_else_body(&n.children);
    let c = blocks.len();
    add_block(blocks, block_at(n, fid, "if", "conditional"));
    link(edges, *prev, c);
    let ts = blocks.len();
    if let Some(j) = then_i {
        proof { lemma_child_lt(*n, j as int); }
        let mut tmp: Option<usize> = None;
        extract_blocks_from_node_with_fallthrough(&n.children[j], fid, src, blocks, edges, &mut tmp, scope);
    }
    let te = sat_dec_exec(blocks.len());
    let es = blocks.len();
    if let Some((i, j)) = els {
        proof {
            lemma_else_body_lt(*n);
            assert(positions_fit(n.children@[i as int]));
            assert(positions_fit(n.children@[i as int].children@[j as int]));
        }
        let mut tmp: Option<usize> = None;
        extract_blocks_from_node_with_fallthrough(&n.children[i].children[j], fid, src, blocks, edges, &mut tmp, scope);
    }
    let ee = sat_dec_exec(blocks.len());
    if then_i.is_some() {
        add_edge(edges, c, ts, CfgEdgeType::ConditionalTrue);
    }
    if els.is_some() {
        add_edge(edges, c, es, CfgEdgeType::ConditionalFalse);
    } else {
        let f = blocks.len();
        add_edge(edges, c, f, CfgEdgeType::ConditionalFalse);
    }
    let m = blocks.len();
    add_block(blocks, end_block_at(n, fid, "merge"));
    if then_i.is_some() && te >= ts {
        add_edge(edges, te, m, CfgEdgeType::Fallthrough);
    }
    if els.is_some() && ee >= es {
        add_edge(edges, ee, m, CfgEdgeType::Fallthrough);
    }
    *prev = Some(m);
}

/// Loops.
fn extract_loop_blocks_with_fallthrough(n: &SyntaxNode, fid: i64, src: &str, blocks: &mut Vec<CfgBlock>, edges: &mut Vec<CfgEdge>, prev: &mut Option<usize>)
    requires
        positions_fit(*n),
    ensures
        same_state(state_of(final(blocks)@, final(edges)@, *final(prev)),
            cfg_loop(*n, fid as int, src.spec_bytes(), state_of(old(blocks)@, old(edges)@, *old(prev)))),
    decreases height(*n), 4int, 0int,
{
    let h = blocks.len();
    add_block(blocks, block_at(n, fid, loop_block_kind_exec(n.kind.as_str()), "conditional"));
    link(edges, *prev, h);
    let x = blocks.len();
    add_block(blocks, end_block_at(n, fid, "exit"));
    let bs = blocks.len();
    if let Some(j) = first_loop_body(&n.children, 0) {
        proof { lemma_child_lt(*n, j as int); }
        *prev = None;
        extract_blocks_from_node_with_fallthrough(&n.children[j], fid, src, blocks, edges, prev, LoopScope { header: Some(h), exit: Some(x) });
        if let Some(last) = *prev {
            if last >= bs {
                add_edge(edges, last, h, CfgEdgeType::BackEdge);
            }
        }
    }
    add_edge(edges, h, x, CfgEdgeType::ConditionalFalse);
    *prev = Some(x);
}

/// `match` / `switch`.
fn extract_match_blocks_with_fallthrough(n: &SyntaxNode, fid: i64, src: &str, blocks: &mut Vec<CfgBlock>, edges: &mut Vec<CfgEdge>, prev: &mut Option<usize>, scope: LoopScope)
    requires
        positions_fit(*n),
    ensures
        same_state(state_of(final(blocks)@, final(edges)@, *final(prev)),
            cfg_match(*n, fid as int, src.spec_bytes(), state_of(old(blocks)@, old(edges)@, *old(prev)), scope)),
    decreases height(*n), 4int, 0int,
{
    let d = blocks.len();
    let kind = if str_eq(n.kind.as_str(), "match_expression") { "match" } else { "switch" };
    add_block(blocks, block_at(n, fid, kind, "conditional"));
    link(edges, *prev, d);
    let ghost st1 = state_of(blocks@, edges@, *prev);
    let arms = collect_arms(n);
    proof {
        lemma_arms_lt(*n);
        lemma_arms_fit(*n);
    }
    let mut spans: Vec<(usize, usize)> = Vec::new();
    let mut guards: Vec<Option<usize>> = Vec::new();
    let mut i: usize = 0;
    while i < arms.len()
        invariant
            i <= arms@.len(),
            arms@.len() == arms_of(n.children@).len(),
            forall|a: int| 0 <= a < arms@.len() ==> *arms@[a] == arms_of(n.children@)[a],
            forall|a: int| 0 <= a < arms_of(n.children@).len() ==> height(#[trigger] arms_of(n.children@)[a]) < height(*n),
            forall|a: int| 0 <= a < arms_of(n.children@).len() ==> positions_fit(#[trigger] arms_of(n.children@)[a]),
            spans@.len() == guards@.len(),
            cfg_arms(*n, i as int, fid as int, src.spec_bytes(),
                ArmsResult { st: state_of(blocks@, edges@, *prev), spans: spans@, guards: guards@ }, d, scope)
                == cfg_arms(*n, 0, fid as int, src.spec_bytes(), ArmsResult { st: st1, spans: seq![], guards: seq![] }, d, scope),
        decreases arms@.len() - i,
    {
        let a: &SyntaxNode = arms[i];
        assert(height(*a) < height(*n));
        assert(positions_fit(*a));
        match find_arm_guard(a) {
            None => {
                let s = blocks.len();
                let mut tmp: Option<usize> = None;
                extract_blocks_from_node_with_fallthrough(a, fid, src, blocks, edges, &mut tmp, scope);
                let e = sat_dec_exec(blocks.len());
                add_edge(edges, d, s, CfgEdgeType::ConditionalTrue);
                spans.push((s, e));
                guards.push(None);
            },
            Some(gi) => {
                let pat = &a.children[0];
                assert(positions_fit(a.children@[0]));
                assert(positions_fit(pat.children@[gi as int]));
                let g = blocks.len();
                add_block(blocks, block_at(&pat.children[gi], fid, "match_guard", "conditional"));
                add_edge(edges, d, g, CfgEdgeType::ConditionalTrue);
                let s = blocks.len();
                if let Some(bi) = named_after_kind(&a.children, "=>") {
                    proof { lemma_child_lt(*a, bi as int); }
                    let mut tmp: Option<usize> = Some(g);
                    extract_blocks_from_node_with_fallthrough(&a.children[bi], fid, src, blocks, edges, &mut tmp, scope);
                }
                let e = sat_dec_exec(blocks.len());
                if s > g {
                    add_edge(edges, g, s, CfgEdgeType::ConditionalTrue);
                }
                spans.push((s, e));
                guards.push(Some(g));
            },
        }
        i = i + 1;
    }
    let ghost str = state_of(blocks@, edges@, *prev);
    let m = blocks.len();
    let mut k: usize = 0;
    while k < guards.len()
        invariant
            k <= guards@.len(),
            spans@.len() == guards@.len(),
            guard_false_edges(state_of(blocks@, edges@, *prev), guards@, spans@, m, k as int)
                == guard_false_edges(str, guards@, spans@, m, 0),
        decreases guards@.len() - k,
    {
        if let Some(g) = guards[k] {
            let t = if k + 1 < guards.len() {
                match guards[k + 1] {
                    Some(ng) => ng,
                    None => spans[k + 1].0,
                }
            } else {
                m
            };
            add_edge(edges, g, t, CfgEdgeType::ConditionalFalse);
        }
        k = k + 1;
    }
    add_block(blocks, end_block_at(n, fid, "merge"));
    let ghost st4 = state_of(blocks@, edges@, *prev);
    let mut k: usize = 0;
    while k < spans.len()
        invariant
            k <= spans@.len(),
            merge_edges(state_of(blocks@, edges@, *prev), spans@, m, k as int) == merge_edges(st4, spans@, m, 0),
        decreases spans@.len() - k,
    {
        let (s, e) = spans[k];
        if e >= s {
            add_edge(edges, e, m, CfgEdgeType::Fallthrough);
        }
        k = k + 1;
    }
    *prev = Some(m);
}

/// `a && b` and `a || b`.
fn extract_short_circuit_blocks(n: &SyntaxNode, fid: i64, src: &str, blocks: &mut Vec<CfgBlock>, edges: &mut Vec<CfgEdge>, prev: &mut Option<usize>, scope: LoopScope, is_and: bool)
    requires
        positions_fit(*n),
    ensures
        same_state(state_of(final(blocks)@, final(edges)@, *final(prev)),
            cfg_short_circuit(*n, fid as int, src.spec_bytes(), state_of(old(blocks)@, old(edges)@, *old(prev)), scope, is_and)),
    decreases height(*n), 4int, 0int,
{
    let left = first_named(&n.children, 0);
    let right = match left {
        Some(li) => if li < n.children.len() { first_named(&n.children, li + 1) } else { None },
        None => None,
    };
    let l = blocks.len();
    add_block(blocks, block_at(n, fid, if is_and { "and" } else { "or" }, "conditional"));
    link(edges, *prev, l);
    if let Some(li) = left {
        proof { lemma_child_lt(*n, li as int); }
        let mut tmp: Option<usize> = Some(l);
        extract_blocks_from_node_with_fallthrough(&n.children[li], fid, src, blocks, edges, &mut tmp, scope);
    }
    let m = blocks.len();
    add_block(blocks, end_block_at(n, fid, "merge"));
    match right {
        Some(ri) => {
            proof { lemma_child_lt(*n, ri as int); }
            assert(positions_fit(n.children@[ri as int]));
            let r = blocks.len();
            add_block(blocks, block_at(&n.children[ri], fid, "short_circuit_rhs", "fallthrough"));
            add_edge(edges, l, r, if is_and { CfgEdgeType::ConditionalTrue } else { CfgEdgeType::ConditionalFalse });
            add_edge(edges, l, m, if is_and { CfgEdgeType::ConditionalFalse } else { CfgEdgeType::ConditionalTrue });
            let mut last: Option<usize> = Some(r);
            extract_blocks_from_node_with_fallthrough(&n.children[ri], fid, src, blocks, edges, &mut last, scope);
            if let Some(x) = last {
                add_edge(edges, x, m, CfgEdgeType::Fallthrough);
            }
        },
        None => {
            add_edge(edges, l, m, CfgEdgeType::Fallthrough);
        },
    }
    *prev = Some(m);
}

/// Expressions without control flow of their own.
fn extract_default_blocks(n: &SyntaxNode, fid: i64, src: &str, blocks: &mut Vec<CfgBlock>, edges: &mut Vec<CfgEdge>, prev: &mut Option<usize>, scope: LoopScope)
    requires
        positions_fit(*n),
    ensures
        same_state(state_of(final(blocks)@, final(edges)@, *final(prev)),
            cfg_default(*n, fid as int, src.spec_bytes(), state_of(old(blocks)@, old(edges)@, *old(prev)), scope)),
    decreases height(*n), 4int, 0int,
{
    proof {
        reveal_strlit("");
        assert(""@ =~= Seq::<char>::empty());
    }
    let i = blocks.len();
    add_block(blocks, block_at(n, fid, n.kind.as_str(), "fallthrough"));
    link(edges, *prev, i);
    extract_each_from(n, fid, src, blocks, edges, prev, i, true, "", scope);
    *prev = Some(i);
}


/// The blocks and edges extracted for one function.
#[derive(Debug)]
pub struct CfgWithEdges {
    /// Blocks, the entry block first.
    pub blocks: Vec<CfgBlock>,
    /// Edges between blocks, by block index.
    pub edges: Vec<CfgEdge>,
    /// Database id of the function.
    pub function_id: i64,
}

/// The entry block of a function: it spans the whole function node.
pub fn create_entry_block(func_node: &SyntaxNode, function_id: i64, _source: &str) -> (b: CfgBlock)
    requires
        func_node.start_row < u64::MAX,
        func_node.end_row < u64::MAX,
    ensures
        b@ == node_block(*func_node, function_id as int, "entry"@, "fallthrough"@),
{
    block_at(func_node, function_id, "entry", "fallthrough")
}

fn function_body_index(cs: &Vec<SyntaxNode>) -> (r: Option<usize>)
    ensures
        as_opt_int(r) == first_child_where(cs@, 0, fn_body_pred()),
        r matches Some(j) ==> j < cs@.len(),
{
    let mut j: usize = 0;
    while j < cs.len() && !(str_eq(cs[j].kind.as_str(), "block") || str_eq(cs[j].kind.as_str(), "compound_statement"))
        invariant
            first_child_where(cs@, 0, fn_body_pred()) == first_child_where(cs@, j as int, fn_body_pred()),
        decreases cs@.len() - j,
    {
        j = j + 1;
    }
    if j < cs.len() { Some(j) } else { None }
}

/// The body of a function: its first child that is a `block` or a
/// `compound_statement`.
pub fn find_function_body(func_node: &SyntaxNode) -> (r: Option<&SyntaxNode>)
    ensures
        match r {
            Some(b) => first_child_where(func_node.children@, 0, fn_body_pred()) matches Some(j)
                && 0 <= j < func_node.children@.len() && *b == func_node.children@[j],
            None => first_child_where(func_node.children@, 0, fn_body_pred()) is None,
        },
{
    match function_body_index(&func_node.children) {
        Some(j) => Some(&func_node.children[j]),
        None => None,
    }
}

/// A found function as plain values.
pub open spec fn location_view(r: Option<(&SyntaxNode, Option<(&SyntaxNode, usize)>)>) -> Option<FnLocation> {
    match r {
        Some((f, p)) => Some((*f, match p {
            Some((q, i)) => Some((*q, i as int)),
            None => None,
        })),
        None => None,
    }
}

fn is_function_kind_exec(k: &str) -> (r: bool)
    ensures
        r == is_function_kind(k@),
{
    str_eq(k, "function_item") || str_eq(k, "function_definition") || str_eq(k, "function_declaration")
        || str_eq(k, "method_declaration")
}

/// The first function node under `n` (see `find_fn`), with its parent.
fn locate_function<'a>(n: &'a SyntaxNode) -> (r: Option<(&'a SyntaxNode, Option<(&'a SyntaxNode, usize)>)>)
    ensures
        location_view(r) == find_fn(*n),
    decreases height(*n), 1int, 0int,
{
    if is_function_kind_exec(n.kind.as_str()) {
        return Some((n, None));
    }
    let mut i = n.children.len();
    while i > 0
        invariant
            i <= n.children@.len(),
            !is_function_kind(n.kind@),
            find_fn_in(*n, i as int) == find_fn(*n),
        decreases i,
    {
        proof { lemma_child_lt(*n, i - 1); }
        match locate_function(&n.children[i - 1]) {
            Some((f, None)) => {
                return Some((f, Some((n, i - 1))));
            },
            Some(loc) => {
                return Some(loc);
            },
            None => {},
        }
        i = i - 1;
    }
    None
}

/// The first function node of the tree, in a depth-first walk that visits a
/// node before its children and the children from the last to the first.
pub fn find_function_node(root: &SyntaxNode) -> (r: Option<&SyntaxNode>)
    ensures
        match r {
            Some(f) => find_fn(*root) matches Some((g, _)) && g == *f,
            None => find_fn(*root) is None,
        },
{
    match locate_function(root) {
        Some((f, _)) => Some(f),
        None => None,
    }
}

/// The source text of a node whose span is a run of characters.
fn node_text_exec<'a>(n: &SyntaxNode, source: &'a str) -> (r: &'a str)
    requires
        source_text(source.spec_bytes(), n.start_byte as int, n.end_byte as int) is Some,
    ensures
        r@ == node_text(*n, source.spec_bytes()),
{
    match source_slice(source, n.start_byte, n.end_byte) {
        Some(t) => t,
        None => "",
    }
}

/// The condition written in a `cfg` token tree (see `cfg_text`).
fn cfg_text_exec(t: &str) -> (r: String)
    ensures
        r@ == cfg_text(t@),
{
    let v = chars_of(t);
    let (a, b) = trim_bounds(&v, 0, v.len());
    assert(v@.subrange(0, v@.len() as int) =~= t@);
    let ghost tr = v@.subrange(a as int, b as int);
    if b > a && v[a] == '(' && v[b - 1] == ')' {
        assert(b - a >= 2) by {
            if b - a == 1 {
                assert(v@[a as int] == v@[b - 1]);
            }
        }
        let (c, d) = trim_bounds(&v, a + 1, b - 1);
        assert(tr.subrange(1, tr.len() - 1) =~= v@.subrange(a + 1, b - 1));
        assert(tr[0] == v@[a as int] && tr.last() == v@[b - 1]);
        string_from_range(&v, c, d)
    } else {
        proof {
            if tr.len() > 0 {
                assert(tr[0] == v@[a as int] && tr.last() == v@[b - 1]);
            }
        }
        string_from_range(&v, a, b)
    }
}

/// The condition of the first `cfg(...)` attribute of an attribute item:
/// `#[cfg(unix)]` gives `unix`.
pub fn parse_cfg_attribute(attr_item: &SyntaxNode, source: &str) -> (r: Option<String>)
    requires
        spans_ok(*attr_item, source.spec_bytes()),
    ensures
        opt_text(r) == cfg_attr_from(attr_item.children@, 0, source.spec_bytes()),
{
    proof {
        reveal_strlit("cfg");
    }
    let cs = &attr_item.children;
    let mut i: usize = 0;
    while i < cs.len()
        invariant
            i <= cs@.len(),
            cs == &attr_item.children,
            spans_ok(*attr_item, source.spec_bytes()),
            cfg_attr_from(cs@, 0, source.spec_bytes()) == cfg_attr_from(cs@, i as int, source.spec_bytes()),
        decreases cs@.len() - i,
    {
        let c = &cs[i];
        assert(spans_ok(*c, source.spec_bytes()));
        if str_eq(c.kind.as_str(), "attribute") {
            if c.children.len() == 0 {
                return None;
            }
            let first = &c.children[0];
            assert(spans_ok(*first, source.spec_bytes()));
            if str_eq(first.kind.as_str(), "identifier") && str_eq(node_text_exec(first, source), "cfg") {
                if let Some(t) = first_of_kind(&c.children, 0, "token_tree") {
                    assert(spans_ok(c.children@[t as int], source.spec_bytes()));
                    let text = node_text_exec(&c.children[t], source);
                    return Some(cfg_text_exec(text));
                }
            }
        }
        i = i + 1;
    }
    None
}

/// The `cfg(...)` condition of the node at position `index` of `parent`'s
/// children: the nearest one among the attribute items directly before it.
pub fn extract_cfg_condition(parent: &SyntaxNode, index: usize, source: &str) -> (r: Option<String>)
    requires
        spans_ok(*parent, source.spec_bytes()),
    ensures
        opt_text(r) == cfg_condition_before(parent.children@, index - 1, source.spec_bytes()),
{
    let cs = &parent.children;
    if index == 0 || index > cs.len() {
        return None;
    }
    let mut j = index;
    while j > 0 && str_eq(cs[j - 1].kind.as_str(), "attribute_item")
        invariant
            0 <= j <= cs@.len(),
            cs == &parent.children,
            spans_ok(*parent, source.spec_bytes()),
            cfg_condition_before(cs@, j - 1, source.spec_bytes()) == cfg_condition_before(cs@, index - 1, source.spec_bytes()),
        decreases j,
    {
        assert(spans_ok(cs@[j - 1], source.spec_bytes()));
        if let Some(c) = parse_cfg_attribute(&cs[j - 1], source) {
            return Some(c);
        }
        j = j - 1;
    }
    None
}

/// A parent location as plain values.
pub open spec fn parent_view(p: Option<(&SyntaxNode, usize)>) -> Option<(SyntaxNode, int)> {
    match p {
        Some((q, i)) => Some((*q, i as int)),
        None => None,
    }
}

fn clone_strings(v: &Vec<String>) -> (r: Vec<String>)
    ensures
        r@.map_values(|t: String| t@) =~= v@.map_values(|t: String| t@),
{
    let mut r: Vec<String> = Vec::new();
    let mut i: usize = 0;
    while i < v.len()
        invariant
            i <= v@.len(),
            r@.len() == i,
            forall|k: int| 0 <= k < i ==> r@[k]@ == v@[k]@,
        decreases v@.len() - i,
    {
        r.push(v[i].clone());
        i = i + 1;
    }
    r
}

fn clone_opt_string(o: &Option<String>) -> (r: Option<String>)
    ensures
        opt_text(r) == opt_text(*o),
{
    match o {
        Some(t) => Some(t.clone()),
        None => None,
    }
}

/// A copy of block `b` carrying the `cfg` condition `cond`.
fn with_cfg_condition(b: &CfgBlock, cond: &String) -> (r: CfgBlock)
    ensures
        r@ == (BlockView { cfg_condition: Some(cond@), ..b@ }),
{
    let statements = match &b.statements {
        Some(v) => Some(clone_strings(v)),
        None => None,
    };
    CfgBlock {
        function_id: b.function_id,
        kind: b.kind.clone(),
        terminator: b.terminator.clone(),
        byte_start: b.byte_start,
        byte_end: b.byte_end,
        start_line: b.start_line,
        start_col: b.start_col,
        end_line: b.end_line,
        end_col: b.end_col,
        cfg_hash: clone_opt_string(&b.cfg_hash),
        statements,
        cfg_condition: Some(cond.clone()),
    }
}

/// Whether no edge leaves the entry block.
fn none_from_entry(edges: &Vec<CfgEdge>) -> (r: bool)
    ensures
        r == no_edge_from_entry(edges@),
{
    let mut i: usize = 0;
    while i < edges.len()
        invariant
            i <= edges@.len(),
            forall|e: int| 0 <= e < i ==> #[trigger] edges@[e].source_idx != 0,
        decreases edges@.len() - i,
    {
        if edges[i].source_idx == 0 {
            return false;
        }
        i = i + 1;
    }
    true
}

/// The control-flow graph of function `func_node` (see `function_graph`),
/// with the `cfg(...)` condition of the function, read from the attributes
/// before it in `parent`, on every block.
pub fn extract_cfg_from_function_node(func_node: &SyntaxNode, parent: Option<(&SyntaxNode, usize)>, function_id: i64, source: &str) -> (r: CfgWithEdges)
    requires
        positions_fit(*func_node),
        parent matches Some((p, _)) ==> spans_ok(*p, source.spec_bytes()),
    ensures
        r.function_id == function_id,
        block_views(r.blocks@) == with_condition(function_graph(*func_node, function_id as int, source.spec_bytes()).blocks,
            cfg_condition_of(parent_view(parent), source.spec_bytes())),
        r.edges@ == function_graph(*func_node, function_id as int, source.spec_bytes()).edges,
        r.blocks@.len() >= 1,
        forall|e: int| 0 <= e < r.edges@.len() ==> (#[trigger] r.edges@[e]).source_idx < r.blocks@.len()
            && r.edges@[e].target_idx < r.blocks@.len(),
        cfg_condition_of(parent_view(parent), source.spec_bytes()) matches Some(c)
            ==> forall|i: int| 0 <= i < r.blocks@.len() ==> (#[trigger] r.blocks@[i])@.cfg_condition == Some(c),
{
    let cond = match parent {
        Some((p, i)) => extract_cfg_condition(p, i, source),
        None => None,
    };
    let mut blocks: Vec<CfgBlock> = Vec::new();
    let mut edges: Vec<CfgEdge> = Vec::new();
    add_block(&mut blocks, create_entry_block(func_node, function_id, source));
    let ghost st0 = CfgState {
        blocks: seq![node_block(*func_node, function_id as int, "entry"@, "fallthrough"@)],
        edges: seq![],
        prev: Some(0),
    };
    assert(block_views(blocks@) =~= st0.blocks);
    assert(edges@ =~= st0.edges);
    if let Some(j) = function_body_index(&func_node.children) {
        assert(positions_fit(func_node.children@[j as int]));
        let mut prev: Option<usize> = Some(0);
        extract_blocks_from_node_with_fallthrough(&func_node.children[j], function_id, source, &mut blocks, &mut edges, &mut prev,
            LoopScope { header: None, exit: None });
        if blocks.len() > 1 && none_from_entry(&edges) {
            add_edge(&mut edges, 0, 1, CfgEdgeType::Fallthrough);
        }
    }
    let ghost orig = block_views(blocks@);
    assert(orig =~= function_graph(*func_node, function_id as int, source.spec_bytes()).blocks);
    if let Some(c) = cond {
        let mut i: usize = 0;
        while i < blocks.len()
            invariant
                i <= blocks@.len(),
                blocks@.len() == orig.len(),
                forall|k: int| 0 <= k < i ==> #[trigger] blocks@[k]@ == (BlockView { cfg_condition: Some(c@), ..orig[k] }),
                forall|k: int| i <= k < blocks@.len() ==> #[trigger] blocks@[k]@ == orig[k],
            decreases blocks@.len() - i,
        {
            let nb = with_cfg_condition(&blocks[i], &c);
            blocks.set(i, nb);
            i = i + 1;
        }
        assert(block_views(blocks@) =~= with_condition(orig, Some(c@)));
    }
    proof {
        lemma_function_graph_edges_in(*func_node, function_id as int, source.spec_bytes());
    }
    CfgWithEdges { blocks, edges, function_id }
}

/// The positions and spans of the tree found for a function and its parent
/// lie in the tree searched.
proof fn lemma_find_fn_within(n: SyntaxNode, src: Seq<u8>)
    requires
        positions_fit(n),
        spans_ok(n, src),
    ensures
        find_fn(n) matches Some((f, p)) ==> positions_fit(f) && spans_ok(f, src)
            && (p matches Some((q, _)) ==> positions_fit(q) && spans_ok(q, src)),
    decreases height(n), 1int, 0int,
{
    if !is_function_kind(n.kind@) {
        lemma_find_fn_in_within(n, n.children@.len() as int, src);
    }
}

proof fn lemma_find_fn_in_within(n: SyntaxNode, i: int, src: Seq<u8>)
    requires
        positions_fit(n),
        spans_ok(n, src),
    ensures
        find_fn_in(n, i) matches Some((f, p)) ==> positions_fit(f) && spans_ok(f, src)
            && (p matches Some((q, _)) ==> positions_fit(q) && spans_ok(q, src)),
    decreases height(n), 0int, i,
{
    if 0 < i <= n.children@.len() {
        lemma_child_lt(n, i - 1);
        assert(positions_fit(n.children@[i - 1]));
        assert(spans_ok(n.children@[i - 1], src));
        lemma_find_fn_within(n.children@[i - 1], src);
        lemma_find_fn_in_within(n, i - 1, src);
    }
}

/// Whether a tree can be read for control flow: every line number fits in
/// 64 bits once made one-based, and every span is a run of characters of
/// the source.
pub open spec fn tree_ok(n: SyntaxNode, src: Seq<u8>) -> bool {
    positions_fit(n) && spans_ok(n, src)
}

/// Whether a tree can be read for control flow (see `tree_ok`).
pub fn check_tree(n: &SyntaxNode, source: &str) -> (r: bool)
    ensures
        r == tree_ok(*n, source.spec_bytes()),
    decreases height(*n),
{
    if !((n.start_row as u64) < u64::MAX && (n.end_row as u64) < u64::MAX) {
        return false;
    }
    if source_slice(source, n.start_byte, n.end_byte).is_none() {
        return false;
    }
    let mut i: usize = 0;
    while i < n.children.len()
        invariant
            i <= n.children@.len(),
            n.start_row < u64::MAX,
            n.end_row < u64::MAX,
            source_text(source.spec_bytes(), n.start_byte as int, n.end_byte as int) is Some,
            forall|k: int| 0 <= k < i ==> tree_ok(#[trigger] n.children@[k], source.spec_bytes()),
        decreases n.children@.len() - i,
    {
        proof { lemma_child_lt(*n, i as int); }
        if !check_tree(&n.children[i], source) {
            return false;
        }
        i = i + 1;
    }
    assert forall|k: int| 0 <= k < n.children@.len() implies positions_fit(#[trigger] n.children@[k]) by {
        assert(tree_ok(n.children@[k], source.spec_bytes()));
    }
    assert forall|k: int| 0 <= k < n.children@.len() implies spans_ok(#[trigger] n.children@[k], source.spec_bytes()) by {
        assert(tree_ok(n.children@[k], source.spec_bytes()));
    }
    true
}

/// The graph extracted from a parsed source: from the first function found
/// (see `find_fn`), or from the root when there is none; nothing when the
/// tree cannot be read (see `tree_ok`).
pub open spec fn tree_graph(root: SyntaxNode, fid: int, src: Seq<u8>) -> (Seq<BlockView>, Seq<CfgEdge>) {
    if !tree_ok(root, src) {
        (seq![], seq![])
    } else {
        match find_fn(root) {
            Some((f, p)) => (with_condition(function_graph(f, fid, src).blocks, cfg_condition_of(p, src)),
                function_graph(f, fid, src).edges),
            None => (function_graph(root, fid, src).blocks, function_graph(root, fid, src).edges),
        }
    }
}

/// The control-flow graph of the function in a parsed tree (see
/// `tree_graph`).
pub fn extract_cfg_from_tree(root: &SyntaxNode, function_id: i64, source: &str) -> (r: CfgWithEdges)
    ensures
        r.function_id == function_id,
        (block_views(r.blocks@), r.edges@) == tree_graph(*root, function_id as int, source.spec_bytes()),
        forall|e: int| 0 <= e < r.edges@.len() ==> (#[trigger] r.edges@[e]).source_idx < r.blocks@.len()
            && r.edges@[e].target_idx < r.blocks@.len(),
{
    if !check_tree(root, source) {
        return CfgWithEdges { function_id, blocks: Vec::new(), edges: Vec::new() };
    }
    proof {
        lemma_find_fn_within(*root, source.spec_bytes());
    }
    match locate_function(root) {
        Some((f, p)) => {
            let r = extract_cfg_from_function_node(f, p, function_id, source);
            assert(parent_view(p) == find_fn(*root).unwrap().1);
            r
        },
        None => {
            let r = extract_cfg_from_function_node(root, None, function_id, source);
            assert(with_condition(function_graph(*root, function_id as int, source.spec_bytes()).blocks, None)
                == function_graph(*root, function_id as int, source.spec_bytes()).blocks);
            r
        },
    }
}

/// Parses `source` with `language` and extracts the control-flow graph of
/// its first function. When the parser gives no tree the result is empty;
/// otherwise it is the graph of the tree it gave (see `tree_graph`).
pub fn extract_cfg_with_edges(source: &str, function_id: i64, language: tree_sitter::Language) -> (r: CfgWithEdges)
    ensures
        r.function_id == function_id,
        match parsed_tree(source@, language) {
            Some(t) => (block_views(r.blocks@), r.edges@) == tree_graph(t, function_id as int, source.spec_bytes()),
            None => r.blocks@.len() == 0 && r.edges@.len() == 0,
        },
        forall|e: int| 0 <= e < r.edges@.len() ==> (#[trigger] r.edges@[e]).source_idx < r.blocks@.len()
            && r.edges@[e].target_idx < r.blocks@.len(),
{
    match parse_source(source, &language) {
        Some(root) => {
            let r = extract_cfg_from_tree(&root, function_id, source);
            assert(tree_graph(root, function_id as int, source.spec_bytes()) == (block_views(r.blocks@), r.edges@));
            r
        },
        None => CfgWithEdges { function_id, blocks: Vec::new(), edges: Vec::new() },
    }
}

} // verus!
