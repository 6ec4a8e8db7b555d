//! What control-flow extraction keeps: blocks and edges are only ever
//! appended, the current block is always a block of the graph, and every
//! edge joins two blocks of the graph.

use vstd::prelude::*;
use crate::syntax::SyntaxNode;
use crate::cfg_model::{CfgState, CfgEdge, CfgEdgeType, LoopScope, BlockView, ArmsResult, height, heights,
    lemma_heights_bound, lemma_child_lt, lemma_else_body_lt, lemma_arms_lt, push_block, push_edge, with_prev,
    link_prev, next_idx, simple_stmt, nested, cfg_node, cfg_seq, cfg_relevant, cfg_each_from, cfg_let_else,
    cfg_if, cfg_loop, cfg_arms, guard_false_edges, merge_edges, cfg_match, cfg_short_circuit, cfg_default,
    node_block, end_block, first_child_where, first_with_field, kind_pred, body_pred, loop_body_pred, else_body,
    arms_of, arm_guard, first_named_after_kind, first_named_from, sat_dec, function_graph, fn_body_pred, no_loop,
    no_edge_from_entry, with_condition, is_if_kind, is_loop_kind, is_switch_kind, is_binding_kind, is_let_kind,
    is_assign_kind, spec_is_cfg_relevant, binary_operator};

verus! {

/// Every edge of `es` joins two indices below `b`.
pub open spec fn edges_below(es: Seq<CfgEdge>, b: int) -> bool {
    forall|e: int| 0 <= e < es.len() ==> (#[trigger] es[e]).source_idx < b && es[e].target_idx < b
}

/// Every edge joins two blocks of the graph.
pub open spec fn edges_in(st: CfgState) -> bool {
    edges_below(st.edges, st.blocks.len() as int)
}

/// Every edge joins two blocks of the graph or the block about to be added.
pub open spec fn edges_near(st: CfgState) -> bool {
    edges_below(st.edges, st.blocks.len() as int + 1)
}

/// The current block, if any, is a block of the graph.
pub open spec fn prev_in(st: CfgState) -> bool {
    st.prev matches Some(p) ==> p < st.blocks.len()
}

/// The loop targets, if any, are blocks of the graph.
pub open spec fn scope_in(scope: LoopScope, st: CfgState) -> bool {
    &&& (scope.header matches Some(h) ==> h < st.blocks.len())
    &&& (scope.exit matches Some(x) ==> x < st.blocks.len())
}

/// `b` holds the blocks and edges of `a`, in order, followed by more.
pub open spec fn grows(a: CfgState, b: CfgState) -> bool {
    &&& a.blocks.len() <= b.blocks.len()
    &&& b.blocks.subrange(0, a.blocks.len() as int) == a.blocks
    &&& a.edges.len() <= b.edges.len()
    &&& b.edges.subrange(0, a.edges.len() as int) == a.edges
}

/// Going from `a` to `b` inside loop `scope` keeps the current block and the
/// edges within the graph.
pub open spec fn keeps(a: CfgState, scope: LoopScope, b: CfgState) -> bool {
    (prev_in(a) && scope_in(scope, a)) ==> {
        &&& prev_in(b)
        &&& (edges_near(a) ==> edges_near(b))
        &&& (edges_in(a) ==> edges_in(b))
    }
}

/// `b` follows from `a` by extraction inside `scope`.
pub open spec fn step(a: CfgState, scope: LoopScope, b: CfgState, fid: int) -> bool {
    grows(a, b) && keeps(a, scope, b) && fresh_tagged(a, b, fid)
}

/// Every block that `b` adds to `a` belongs to function `fid` and carries
/// no cfg condition.
pub open spec fn fresh_tagged(a: CfgState, b: CfgState, fid: int) -> bool {
    forall|i: int| a.blocks.len() <= i < b.blocks.len()
        ==> (#[trigger] b.blocks[i]).function_id == fid && b.blocks[i].cfg_condition is None
}

proof fn lemma_refl(a: CfgState, scope: LoopScope, fid: int)
    ensures
        step(a, scope, a, fid),
{
    assert(a.blocks.subrange(0, a.blocks.len() as int) =~= a.blocks);
    assert(a.edges.subrange(0, a.edges.len() as int) =~= a.edges);
}

proof fn lemma_chain(a: CfgState, b: CfgState, c: CfgState, scope: LoopScope, fid: int)
    requires
        step(a, scope, b, fid),
        step(b, scope, c, fid),
    ensures
        step(a, scope, c, fid),
{
    assert(c.blocks.subrange(0, a.blocks.len() as int) =~= b.blocks.subrange(0, a.blocks.len() as int));
    assert(c.edges.subrange(0, a.edges.len() as int) =~= b.edges.subrange(0, a.edges.len() as int));
    assert forall|i: int| a.blocks.len() <= i < c.blocks.len()
        implies (#[trigger] c.blocks[i]).function_id == fid && c.blocks[i].cfg_condition is None by {
        if i < b.blocks.len() {
            assert(c.blocks.subrange(0, b.blocks.len() as int)[i] == c.blocks[i]);
            assert(b.blocks[i] == c.blocks[i]);
        }
    }
}

proof fn lemma_tag_chain(a: CfgState, b: CfgState, c: CfgState, fid: int)
    requires
        grows(a, b),
        grows(b, c),
        fresh_tagged(a, b, fid),
        fresh_tagged(b, c, fid),
    ensures
        fresh_tagged(a, c, fid),
{
    assert forall|i: int| a.blocks.len() <= i < c.blocks.len()
        implies (#[trigger] c.blocks[i]).function_id == fid && c.blocks[i].cfg_condition is None by {
        if i < b.blocks.len() {
            assert(c.blocks.subrange(0, b.blocks.len() as int)[i] == c.blocks[i]);
            assert(b.blocks[i] == c.blocks[i]);
        }
    }
}

proof fn lemma_block(st: CfgState, b: BlockView, scope: LoopScope, fid: int)
    requires
        b.function_id == fid,
        b.cfg_condition is None,
    ensures
        step(st, scope, push_block(st, b), fid),
{
    let r = push_block(st, b);
    assert(r.blocks.subrange(0, st.blocks.len() as int) =~= st.blocks);
    assert(r.edges.subrange(0, st.edges.len() as int) =~= st.edges);
}

proof fn lemma_edge(st: CfgState, s: usize, t: usize, ty: CfgEdgeType, scope: LoopScope, fid: int)
    requires
        s < st.blocks.len(),
        t < st.blocks.len(),
    ensures
        step(st, scope, push_edge(st, s, t, ty), fid),
{
    let r = push_edge(st, s, t, ty);
    assert(r.blocks.subrange(0, st.blocks.len() as int) =~= st.blocks);
    assert(r.edges.subrange(0, st.edges.len() as int) =~= st.edges);
    assert(edges_in(st) ==> edges_in(r)) by {
        if edges_in(st) {
            assert forall|e: int| 0 <= e < r.edges.len() implies (#[trigger] r.edges[e]).source_idx < st.blocks.len()
                && r.edges[e].target_idx < st.blocks.len() by {
                if e < st.edges.len() {
                    assert(r.edges[e] == st.edges[e]);
                }
            }
        }
    }
    assert(edges_near(st) ==> edges_near(r)) by {
        if edges_near(st) {
            assert forall|e: int| 0 <= e < r.edges.len() implies (#[trigger] r.edges[e]).source_idx < st.blocks.len() + 1
                && r.edges[e].target_idx < st.blocks.len() + 1 by {
                if e < st.edges.len() {
                    assert(r.edges[e] == st.edges[e]);
                }
            }
        }
    }
}

/// An edge into the block about to be added keeps only the weaker bound.
proof fn lemma_edge_near(st: CfgState, s: usize, t: usize, ty: CfgEdgeType)
    requires
        s < st.blocks.len(),
        t <= st.blocks.len(),
    ensures
        grows(st, push_edge(st, s, t, ty)),
        edges_near(st) ==> edges_near(push_edge(st, s, t, ty)),
{
    let r = push_edge(st, s, t, ty);
    assert(r.blocks.subrange(0, st.blocks.len() as int) =~= st.blocks);
    assert(r.edges.subrange(0, st.edges.len() as int) =~= st.edges);
    if edges_near(st) {
        assert forall|e: int| 0 <= e < r.edges.len() implies (#[trigger] r.edges[e]).source_idx < st.blocks.len() + 1
            && r.edges[e].target_idx < st.blocks.len() + 1 by {
            if e < st.edges.len() {
                assert(r.edges[e] == st.edges[e]);
            }
        }
    }
}

/// Adding a block turns the weaker bound into the stronger one.
proof fn lemma_block_closes(st: CfgState, b: BlockView)
    requires
        edges_near(st),
    ensures
        edges_in(push_block(st, b)),
{
}

proof fn lemma_link(st: CfgState, t: usize, scope: LoopScope, fid: int)
    requires
        t < st.blocks.len(),
    ensures
        step(st, scope, link_prev(st, t), fid),
{
    match st.prev {
        Some(p) => {
            if prev_in(st) {
                lemma_edge(st, p, t, CfgEdgeType::Fallthrough, scope, fid);
            } else {
                let r = link_prev(st, t);
                assert(r.blocks.subrange(0, st.blocks.len() as int) =~= st.blocks);
                assert(r.edges.subrange(0, st.edges.len() as int) =~= st.edges);
            }
        },
        None => lemma_refl(st, scope, fid),
    }
}

proof fn lemma_prev(st: CfgState, p: Option<usize>, scope: LoopScope, fid: int)
    requires
        p matches Some(x) ==> x < st.blocks.len(),
    ensures
        step(st, scope, with_prev(st, p), fid),
{
    lemma_refl(st, scope, fid);
}

/// A part extracted from a temporary current block `x` and then left.
proof fn lemma_nested(st: CfgState, x: Option<usize>, after: CfgState, scope: LoopScope, fid: int)
    requires
        x matches Some(v) ==> v < st.blocks.len(),
        step(with_prev(st, x), scope, after, fid),
    ensures
        step(st, scope, nested(after, st), fid),
{
    let w = with_prev(st, x);
    assert(w.blocks == st.blocks && w.edges == st.edges);
    assert(after.blocks.subrange(0, st.blocks.len() as int) == st.blocks);
}

/// A simple statement block.
proof fn lemma_simple(n: SyntaxNode, fid: int, st: CfgState, kind: Seq<char>, term: Seq<char>, scope: LoopScope)
    requires
        simple_stmt(n, fid, st, kind, term).blocks.len() <= usize::MAX,
    ensures
        step(st, scope, simple_stmt(n, fid, st, kind, term), fid),
{
    let i = next_idx(st);
    let s1 = push_block(st, node_block(n, fid, kind, term));
    lemma_block(st, node_block(n, fid, kind, term), scope, fid);
    lemma_link(s1, i, scope, fid);
    lemma_chain(st, s1, link_prev(s1, i), scope, fid);
    lemma_prev(link_prev(s1, i), Some(i), scope, fid);
    lemma_chain(st, link_prev(s1, i), simple_stmt(n, fid, st, kind, term), scope, fid);
}

/// The block for `n` linked from the current block.
proof fn lemma_open(st: CfgState, b: BlockView, scope: LoopScope, fid: int)
    requires
        st.blocks.len() < usize::MAX,
        b.function_id == fid,
        b.cfg_condition is None,
    ensures
        step(st, scope, link_prev(push_block(st, b), next_idx(st)), fid),
{
    let s1 = push_block(st, b);
    lemma_block(st, b, scope, fid);
    lemma_link(s1, next_idx(st), scope, fid);
    lemma_chain(st, s1, link_prev(s1, next_idx(st)), scope, fid);
}

/// Extraction of any node keeps the graph well formed: it only appends
/// blocks and edges, keeps the edges and the current block within the
/// graph, and every block it adds belongs to function `fid` and carries no
/// cfg condition (see `step`).
pub proof fn lemma_node(n: SyntaxNode, fid: int, src: Seq<u8>, st: CfgState, scope: LoopScope)
    requires
        cfg_node(n, fid, src, st, scope).blocks.len() <= usize::MAX,
    ensures
        step(st, scope, cfg_node(n, fid, src, st, scope), fid),
    decreases height(n), 5int, 0int,
{
    let k = n.kind@;
    let cs = n.children@;
    let r = cfg_node(n, fid, src, st, scope);
    if is_if_kind(k) {
        lemma_if(n, fid, src, st, scope);
    } else if is_loop_kind(k) {
        lemma_loop(n, fid, src, st, scope);
    } else if is_switch_kind(k) {
        lemma_match(n, fid, src, st, scope);
    } else if k == "return_expression"@ || k == "return_statement"@
        || k == "break_expression"@ || k == "break_statement"@
        || k == "continue_expression"@ || k == "continue_statement"@ {
        let i = next_idx(st);
        let kind = if k == "return_expression"@ || k == "return_statement"@ { "return"@ }
            else if k == "break_expression"@ || k == "break_statement"@ { "break"@ } else { "continue"@ };
        let term = if k == "return_expression"@ || k == "return_statement"@ { "return"@ } else { "jump"@ };
        let b = node_block(n, fid, kind, term);
        lemma_open(st, b, scope, fid);
        let s1 = link_prev(push_block(st, b), i);
        lemma_prev(s1, None, scope, fid);
        lemma_chain(st, s1, with_prev(s1, None), scope, fid);
        let s2 = with_prev(s1, None);
        if k == "return_expression"@ || k == "return_statement"@ {
            lemma_edge(s2, i, i, CfgEdgeType::Return, scope, fid);
            lemma_chain(st, s2, r, scope, fid);
        } else if k == "break_expression"@ || k == "break_statement"@ {
            match scope.exit {
                Some(x) => {
                    if scope_in(scope, st) {
                        lemma_edge(s2, i, x, CfgEdgeType::Jump, scope, fid);
                        lemma_chain(st, s2, r, scope, fid);
                    } else {
                        let s3 = push_edge(s2, i, x, CfgEdgeType::Jump);
                        assert(s3.blocks.subrange(0, s2.blocks.len() as int) =~= s2.blocks);
                        assert(s3.edges.subrange(0, s2.edges.len() as int) =~= s2.edges);
                        assert(s3.edges.subrange(0, st.edges.len() as int) =~= s2.edges.subrange(0, st.edges.len() as int));
                        assert(s3.blocks == s2.blocks);
                    }
                },
                None => {},
            }
        } else {
            match scope.header {
                Some(h) => {
                    if scope_in(scope, st) {
                        lemma_edge(s2, i, h, CfgEdgeType::BackEdge, scope, fid);
                        lemma_chain(st, s2, r, scope, fid);
                    } else {
                        let s3 = push_edge(s2, i, h, CfgEdgeType::BackEdge);
                        assert(s3.edges.subrange(0, s2.edges.len() as int) =~= s2.edges);
                        assert(s3.edges.subrange(0, st.edges.len() as int) =~= s2.edges.subrange(0, st.edges.len() as int));
                        assert(s3.blocks == s2.blocks);
                    }
                },
                None => {},
            }
        }
    } else if k == "block"@ || k == "compound_statement"@ || k == "statement_list"@ {
        lemma_seq(n, cs, fid, src, st, scope);
    } else if k == "call_expression"@ || k == "call_statement"@ {
        let i = next_idx(st);
        let b = node_block(n, fid, "call"@, "call"@);
        lemma_open(st, b, scope, fid);
        let s1 = link_prev(push_block(st, b), i);
        lemma_edge(s1, i, i, CfgEdgeType::Call, scope, fid);
        lemma_chain(st, s1, push_edge(s1, i, i, CfgEdgeType::Call), scope, fid);
        lemma_prev(push_edge(s1, i, i, CfgEdgeType::Call), Some(i), scope, fid);
        lemma_chain(st, push_edge(s1, i, i, CfgEdgeType::Call), r, scope, fid);
    } else if is_binding_kind(k) {
        let st1 = if is_let_kind(k) && first_with_field(cs, 0, "alternative"@) is Some {
            cfg_let_else(n, fid, src, st, scope)
        } else {
            simple_stmt(n, fid, st, crate::cfg_model::binding_block_kind(k), "fallthrough"@)
        };
        if is_let_kind(k) || is_assign_kind(k) {
            lemma_relevant(n, cs, fid, src, st1, scope);
        } else {
            lemma_refl(st1, scope, fid);
        }
        if is_let_kind(k) && first_with_field(cs, 0, "alternative"@) is Some {
            lemma_let_else(n, fid, src, st, scope);
        } else {
            lemma_simple(n, fid, st, crate::cfg_model::binding_block_kind(k), "fallthrough"@, scope);
        }
        lemma_chain(st, st1, r, scope, fid);
    } else if k == "statement"@ || k == "expression_statement"@ {
        if cs.len() == 0 {
            lemma_refl(st, scope, fid);
        } else if spec_is_cfg_relevant(cs[0].kind@) {
            lemma_child_lt(n, 0);
            lemma_node(cs[0], fid, src, st, scope);
        } else {
            lemma_simple(n, fid, st, "stmt"@, "fallthrough"@, scope);
        }
    } else if k == "try_expression"@ || k == "await_expression"@ {
        let t = next_idx(st);
        let is_try = k == "try_expression"@;
        let b = node_block(n, fid, if is_try { "try"@ } else { "await"@ }, if is_try { "conditional"@ } else { "fallthrough"@ });
        let s1 = link_prev(push_block(st, b), t);
        let s2 = cfg_each_from(cs, fid, src, s1, t, false, if is_try { "try"@ } else { "await"@ }, scope);
        lemma_each_from(n, cs, fid, src, s1, t, false, if is_try { "try"@ } else { "await"@ }, scope);
        lemma_open(st, b, scope, fid);
        lemma_chain(st, s1, s2, scope, fid);
        if is_try {
            lemma_edge(s2, t, t, CfgEdgeType::Return, scope, fid);
            lemma_chain(st, s2, r, scope, fid);
        }
    } else if k == "closure_expression"@ {
        let c = next_idx(st);
        let b = node_block(n, fid, "closure"@, "fallthrough"@);
        let s1 = link_prev(push_block(st, b), c);
        match first_child_where(cs, 0, kind_pred("block"@)) {
            Some(j) => if 0 <= j < cs.len() {
                lemma_child_lt(n, j);
                lemma_node(cs[j], fid, src, with_prev(s1, Some(c)), scope);
                lemma_open(st, b, scope, fid);
                lemma_nested(s1, Some(c), cfg_node(cs[j], fid, src, with_prev(s1, Some(c)), scope), scope, fid);
                lemma_chain(st, s1, r, scope, fid);
            } else {
                lemma_open(st, b, scope, fid);
            },
            None => lemma_open(st, b, scope, fid),
        }
    } else if k == "binary_expression"@ {
        let op = binary_operator(n, src);
        if op == Some("&&"@) {
            lemma_short_circuit(n, fid, src, st, scope, true);
        } else if op == Some("||"@) {
            lemma_short_circuit(n, fid, src, st, scope, false);
        } else {
            lemma_default(n, fid, src, st, scope);
        }
    } else if cs.len() > 0 && !n.named {
        lemma_seq(n, cs, fid, src, st, scope);
    } else if n.named {
        lemma_simple(n, fid, st, k, "fallthrough"@, scope);
    } else {
        lemma_refl(st, scope, fid);
    }
}

proof fn lemma_seq(n: SyntaxNode, cs: Seq<SyntaxNode>, fid: int, src: Seq<u8>, st: CfgState, scope: LoopScope)
    requires
        heights(cs) < height(n),
        cfg_seq(cs, fid, src, st, scope).blocks.len() <= usize::MAX,
    ensures
        step(st, scope, cfg_seq(cs, fid, src, st, scope), fid),
    decreases height(n), 3int, cs.len(),
{
    if cs.len() == 0 {
        lemma_refl(st, scope, fid);
    } else {
        lemma_heights_bound(cs, 0);
        let s1 = cfg_node(cs[0], fid, src, st, scope);
        lemma_heights_drop(cs);
        lemma_seq(n, cs.drop_first(), fid, src, s1, scope);
        lemma_node(cs[0], fid, src, st, scope);
        lemma_chain(st, s1, cfg_seq(cs, fid, src, st, scope), scope, fid);
    }
}

proof fn lemma_heights_drop(cs: Seq<SyntaxNode>)
    requires
        cs.len() > 0,
    ensures
        heights(cs.drop_first()) <= heights(cs),
{
}

proof fn lemma_relevant(n: SyntaxNode, cs: Seq<SyntaxNode>, fid: int, src: Seq<u8>, st: CfgState, scope: LoopScope)
    requires
        heights(cs) < height(n),
        cfg_relevant(cs, fid, src, st, scope).blocks.len() <= usize::MAX,
    ensures
        step(st, scope, cfg_relevant(cs, fid, src, st, scope), fid),
    decreases height(n), 3int, cs.len(),
{
    if cs.len() == 0 {
        lemma_refl(st, scope, fid);
    } else {
        lemma_heights_bound(cs, 0);
        let s1 = if spec_is_cfg_relevant(cs[0].kind@) { cfg_node(cs[0], fid, src, st, scope) } else { st };
        lemma_heights_drop(cs);
        lemma_relevant(n, cs.drop_first(), fid, src, s1, scope);
        if spec_is_cfg_relevant(cs[0].kind@) {
            lemma_node(cs[0], fid, src, st, scope);
        } else {
            lemma_refl(st, scope, fid);
        }
        lemma_chain(st, s1, cfg_relevant(cs, fid, src, st, scope), scope, fid);
    }
}

proof fn lemma_each_from(n: SyntaxNode, cs: Seq<SyntaxNode>, fid: int, src: Seq<u8>, st: CfgState, from: usize, named_only: bool, skip: Seq<char>, scope: LoopScope)
    requires
        heights(cs) < height(n),
        cfg_each_from(cs, fid, src, st, from, named_only, skip, scope).blocks.len() <= usize::MAX,
    ensures
        grows(st, cfg_each_from(cs, fid, src, st, from, named_only, skip, scope)),
        fresh_tagged(st, cfg_each_from(cs, fid, src, st, from, named_only, skip, scope), fid),
        from < st.blocks.len() ==> step(st, scope, cfg_each_from(cs, fid, src, st, from, named_only, skip, scope), fid),
    decreases height(n), 3int, cs.len(),
{
    if cs.len() == 0 {
        lemma_refl(st, scope, fid);
    } else {
        lemma_heights_bound(cs, 0);
        let pick = if named_only { cs[0].named } else { cs[0].kind@ != skip };
        let s1 = if pick { nested(cfg_node(cs[0], fid, src, with_prev(st, Some(from)), scope), st) } else { st };
        let fin = cfg_each_from(cs, fid, src, st, from, named_only, skip, scope);
        lemma_heights_drop(cs);
        lemma_each_from(n, cs.drop_first(), fid, src, s1, from, named_only, skip, scope);
        if pick {
            let a = cfg_node(cs[0], fid, src, with_prev(st, Some(from)), scope);
            assert(s1.blocks == a.blocks);
            lemma_node(cs[0], fid, src, with_prev(st, Some(from)), scope);
            assert(grows(st, s1));
            if from < st.blocks.len() {
                lemma_nested(st, Some(from), a, scope, fid);
            }
        } else {
            lemma_refl(st, scope, fid);
        }
        assert(grows(st, fin)) by {
            assert(fin.blocks.subrange(0, st.blocks.len() as int) =~= s1.blocks.subrange(0, st.blocks.len() as int));
            assert(fin.edges.subrange(0, st.edges.len() as int) =~= s1.edges.subrange(0, st.edges.len() as int));
        }
        if pick {
            let a = cfg_node(cs[0], fid, src, with_prev(st, Some(from)), scope);
            assert(with_prev(st, Some(from)).blocks == st.blocks);
            assert(fresh_tagged(st, s1, fid)) by {
                assert forall|i: int| st.blocks.len() <= i < s1.blocks.len()
                    implies (#[trigger] s1.blocks[i]).function_id == fid && s1.blocks[i].cfg_condition is None by {
                    assert(s1.blocks[i] == a.blocks[i]);
                    assert(fresh_tagged(with_prev(st, Some(from)), a, fid));
                }
            }
        }
        lemma_tag_chain(st, s1, fin, fid);
        if from < st.blocks.len() {
            lemma_chain(st, s1, fin, scope, fid);
        }
    }
}

proof fn lemma_let_else(n: SyntaxNode, fid: int, src: Seq<u8>, st: CfgState, scope: LoopScope)
    requires
        cfg_let_else(n, fid, src, st, scope).blocks.len() <= usize::MAX,
    ensures
        step(st, scope, cfg_let_else(n, fid, src, st, scope), fid),
    decreases height(n), 4int, 0int,
{
    let cs = n.children@;
    let s = next_idx(st);
    let b = node_block(n, fid, "let_else"@, "conditional"@);
    let st_a = link_prev(push_block(st, b), s);
    let alt_start = next_idx(st_a);
    let st_b = match first_with_field(cs, 0, "alternative"@) {
        Some(j) => if 0 <= j < cs.len() {
            nested(cfg_node(cs[j], fid, src, with_prev(st_a, None), scope), st_a)
        } else {
            st_a
        },
        None => st_a,
    };
    let st_c = if alt_start < next_idx(st_b) { push_edge(st_b, s, alt_start, CfgEdgeType::ConditionalFalse) } else { st_b };
    let m = next_idx(st_c);
    let st_d = push_block(st_c, end_block(n, fid, "merge"@));
    let r = cfg_let_else(n, fid, src, st, scope);
    assert(r == with_prev(push_edge(st_d, s, m, CfgEdgeType::ConditionalTrue), Some(m)));
    match first_with_field(cs, 0, "alternative"@) {
        Some(j) => if 0 <= j < cs.len() {
            lemma_child_lt(n, j);
            lemma_node(cs[j], fid, src, with_prev(st_a, None), scope);
        },
        None => {},
    }
    lemma_open(st, b, scope, fid);
    match first_with_field(cs, 0, "alternative"@) {
        Some(j) => if 0 <= j < cs.len() {
            lemma_nested(st_a, None, cfg_node(cs[j], fid, src, with_prev(st_a, None), scope), scope, fid);
        } else {
            lemma_refl(st_a, scope, fid);
        },
        None => lemma_refl(st_a, scope, fid),
    }
    lemma_chain(st, st_a, st_b, scope, fid);
    if alt_start < next_idx(st_b) {
        lemma_edge(st_b, s, alt_start, CfgEdgeType::ConditionalFalse, scope, fid);
    } else {
        lemma_refl(st_b, scope, fid);
    }
    lemma_chain(st, st_b, st_c, scope, fid);
    lemma_block(st_c, end_block(n, fid, "merge"@), scope, fid);
    lemma_chain(st, st_c, st_d, scope, fid);
    lemma_edge(st_d, s, m, CfgEdgeType::ConditionalTrue, scope, fid);
    lemma_chain(st, st_d, push_edge(st_d, s, m, CfgEdgeType::ConditionalTrue), scope, fid);
    lemma_prev(push_edge(st_d, s, m, CfgEdgeType::ConditionalTrue), Some(m), scope, fid);
    lemma_chain(st, push_edge(st_d, s, m, CfgEdgeType::ConditionalTrue), r, scope, fid);
}

proof fn lemma_if(n: SyntaxNode, fid: int, src: Seq<u8>, st: CfgState, scope: LoopScope)
    requires
        cfg_if(n, fid, src, st, scope).blocks.len() <= usize::MAX,
    ensures
        step(st, scope, cfg_if(n, fid, src, st, scope), fid),
    decreases height(n), 4int, 0int,
{
    let cs = n.children@;
    let then_i = first_child_where(cs, 0, body_pred());
    let els = else_body(cs);
    let c = next_idx(st);
    let b = node_block(n, fid, "if"@, "conditional"@);
    let st1 = link_prev(push_block(st, b), c);
    let ts = next_idx(st1);
    let st2 = match then_i {
        Some(j) => if 0 <= j < cs.len() {
            nested(cfg_node(cs[j], fid, src, with_prev(st1, None), scope), st1)
        } else {
            st1
        },
        None => st1,
    };
    let te = sat_dec(next_idx(st2));
    let es = next_idx(st2);
    let st3 = match els {
        Some((i, j)) => if 0 <= i < cs.len() && 0 <= j < cs[i].children@.len() {
            nested(cfg_node(cs[i].children@[j], fid, src, with_prev(st2, None), scope), st2)
        } else {
            st2
        },
        None => st2,
    };
    let ee = sat_dec(next_idx(st3));
    let st4 = if then_i is Some { push_edge(st3, c, ts, CfgEdgeType::ConditionalTrue) } else { st3 };
    let st5 = if els is Some {
        push_edge(st4, c, es, CfgEdgeType::ConditionalFalse)
    } else {
        push_edge(st4, c, next_idx(st4), CfgEdgeType::ConditionalFalse)
    };
    let m = next_idx(st5);
    let st6 = push_block(st5, end_block(n, fid, "merge"@));
    let st7 = if then_i is Some && te >= ts { push_edge(st6, te, m, CfgEdgeType::Fallthrough) } else { st6 };
    let st8 = if els is Some && ee >= es { push_edge(st7, ee, m, CfgEdgeType::Fallthrough) } else { st7 };
    let r = cfg_if(n, fid, src, st, scope);
    assert(r == with_prev(st8, Some(m)));
    // lengths, from the last extraction back to the first
    match els {
        Some((i, j)) => if 0 <= i < cs.len() && 0 <= j < cs[i].children@.len() {
            lemma_else_body_lt(n);
            lemma_node(cs[i].children@[j], fid, src, with_prev(st2, None), scope);
        },
        None => {},
    }
    match then_i {
        Some(j) => if 0 <= j < cs.len() {
            lemma_child_lt(n, j);
            lemma_node(cs[j], fid, src, with_prev(st1, None), scope);
        },
        None => {},
    }
    lemma_open(st, b, scope, fid);
    match then_i {
        Some(j) => if 0 <= j < cs.len() {
            lemma_nested(st1, None, cfg_node(cs[j], fid, src, with_prev(st1, None), scope), scope, fid);
        } else {
            lemma_refl(st1, scope, fid);
        },
        None => lemma_refl(st1, scope, fid),
    }
    lemma_chain(st, st1, st2, scope, fid);
    match els {
        Some((i, j)) => if 0 <= i < cs.len() && 0 <= j < cs[i].children@.len() {
            lemma_nested(st2, None, cfg_node(cs[i].children@[j], fid, src, with_prev(st2, None), scope), scope, fid);
        } else {
            lemma_refl(st2, scope, fid);
        },
        None => lemma_refl(st2, scope, fid),
    }
    lemma_chain(st, st2, st3, scope, fid);
    // the conditional edges may point at the merge block, added next
    if then_i is Some {
        lemma_edge_near(st3, c, ts, CfgEdgeType::ConditionalTrue);
    } else {
        lemma_refl(st3, scope, fid);
    }
    if els is Some {
        lemma_edge_near(st4, c, es, CfgEdgeType::ConditionalFalse);
    } else {
        lemma_edge_near(st4, c, next_idx(st4), CfgEdgeType::ConditionalFalse);
    }
    assert(grows(st3, st5)) by {
        assert(st5.blocks == st3.blocks);
        assert(st5.edges.subrange(0, st3.edges.len() as int) =~= st4.edges.subrange(0, st3.edges.len() as int));
    }
    lemma_block(st5, end_block(n, fid, "merge"@), scope, fid);
    assert(edges_near(st3) ==> edges_in(st6)) by {
        if edges_near(st3) {
            lemma_block_closes(st5, end_block(n, fid, "merge"@));
        }
    }
    assert(step(st3, scope, st6, fid)) by {
        assert(st6.blocks.subrange(0, st3.blocks.len() as int) =~= st3.blocks);
        assert(st6.edges == st5.edges);
        if edges_in(st3) {
            assert(edges_near(st3));
        }
        if edges_near(st3) {
            assert forall|e: int| 0 <= e < st6.edges.len() implies (#[trigger] st6.edges[e]).source_idx < st6.blocks.len() + 1
                && st6.edges[e].target_idx < st6.blocks.len() + 1 by {
                assert(edges_in(st6));
            }
        }
    }
    lemma_chain(st, st3, st6, scope, fid);
    if then_i is Some && te >= ts {
        lemma_edge(st6, te, m, CfgEdgeType::Fallthrough, scope, fid);
    } else {
        lemma_refl(st6, scope, fid);
    }
    lemma_chain(st, st6, st7, scope, fid);
    if els is Some && ee >= es {
        lemma_edge(st7, ee, m, CfgEdgeType::Fallthrough, scope, fid);
    } else {
        lemma_refl(st7, scope, fid);
    }
    lemma_chain(st, st7, st8, scope, fid);
    lemma_prev(st8, Some(m), scope, fid);
    lemma_chain(st, st8, r, scope, fid);
}

proof fn lemma_loop(n: SyntaxNode, fid: int, src: Seq<u8>, st: CfgState, scope: LoopScope)
    requires
        cfg_loop(n, fid, src, st).blocks.len() <= usize::MAX,
    ensures
        step(st, scope, cfg_loop(n, fid, src, st), fid),
    decreases height(n), 4int, 0int,
{
    let cs = n.children@;
    let h = next_idx(st);
    let b = node_block(n, fid, crate::cfg_model::loop_block_kind(n.kind@), "conditional"@);
    let st1 = link_prev(push_block(st, b), h);
    let x = next_idx(st1);
    let st2 = push_block(st1, end_block(n, fid, "exit"@));
    let bs = next_idx(st2);
    let body = first_child_where(cs, 0, loop_body_pred());
    let inner = LoopScope { header: Some(h), exit: Some(x) };
    let st3 = match body {
        Some(j) => if 0 <= j < cs.len() {
            cfg_node(cs[j], fid, src, with_prev(st2, None), inner)
        } else {
            st2
        },
        None => st2,
    };
    let st4 = match st3.prev {
        Some(last) => if body is Some && last >= bs { push_edge(st3, last, h, CfgEdgeType::BackEdge) } else { st3 },
        None => st3,
    };
    let r = cfg_loop(n, fid, src, st);
    assert(r == with_prev(push_edge(st4, h, x, CfgEdgeType::ConditionalFalse), Some(x)));
    match body {
        Some(j) => if 0 <= j < cs.len() {
            lemma_child_lt(n, j);
            lemma_node(cs[j], fid, src, with_prev(st2, None), inner);
        },
        None => {},
    }
    lemma_open(st, b, scope, fid);
    lemma_block(st1, end_block(n, fid, "exit"@), scope, fid);
    lemma_chain(st, st1, st2, scope, fid);
    // the body runs inside the loop's own scope
    assert(step(st2, scope, st3, fid)) by {
        match body {
            Some(j) => if 0 <= j < cs.len() {
                lemma_prev(st2, None, inner, fid);
                lemma_chain(st2, with_prev(st2, None), st3, inner, fid);
                assert(scope_in(inner, st2));
            } else {
                lemma_refl(st2, scope, fid);
            },
            None => lemma_refl(st2, scope, fid),
        }
    }
    lemma_chain(st, st2, st3, scope, fid);
    match st3.prev {
        Some(last) => if body is Some && last >= bs {
            if prev_in(st3) {
                lemma_edge(st3, last, h, CfgEdgeType::BackEdge, scope, fid);
            } else {
                assert(st4.edges.subrange(0, st3.edges.len() as int) =~= st3.edges);
                assert(st4.blocks == st3.blocks);
            }
        } else {
            lemma_refl(st3, scope, fid);
        },
        None => lemma_refl(st3, scope, fid),
    }
    lemma_chain(st, st3, st4, scope, fid);
    lemma_edge(st4, h, x, CfgEdgeType::ConditionalFalse, scope, fid);
    lemma_chain(st, st4, push_edge(st4, h, x, CfgEdgeType::ConditionalFalse), scope, fid);
    lemma_prev(push_edge(st4, h, x, CfgEdgeType::ConditionalFalse), Some(x), scope, fid);
    lemma_chain(st, push_edge(st4, h, x, CfgEdgeType::ConditionalFalse), r, scope, fid);
}

/// What holds of the arms extracted so far: their blocks and guards are
/// blocks of the graph, each arm's first block at most the next block.
pub open spec fn arms_in(acc: ArmsResult, d: usize) -> bool {
    &&& d < acc.st.blocks.len()
    &&& acc.spans.len() == acc.guards.len()
    &&& forall|i: int| 0 <= i < acc.spans.len() ==> (#[trigger] acc.spans[i]).0 <= acc.st.blocks.len()
        && acc.spans[i].1 < acc.st.blocks.len()
    &&& forall|i: int| 0 <= i < acc.guards.len() ==> (#[trigger] acc.guards[i] matches Some(g) ==> g < acc.st.blocks.len())
}

proof fn lemma_arms(n: SyntaxNode, i: int, fid: int, src: Seq<u8>, acc: ArmsResult, d: usize, scope: LoopScope)
    requires
        cfg_arms(n, i, fid, src, acc, d, scope).st.blocks.len() <= usize::MAX,
    ensures
        ({
            let r = cfg_arms(n, i, fid, src, acc, d, scope);
            &&& grows(acc.st, r.st)
            &&& fresh_tagged(acc.st, r.st, fid)
            &&& (prev_in(acc.st) && scope_in(scope, acc.st) && arms_in(acc, d) && edges_near(acc.st)) ==> {
                &&& prev_in(r.st)
                &&& arms_in(r, d)
                &&& edges_near(r.st)
            }
        }),
    decreases height(n), 3int, arms_of(n.children@).len() - i,
{
    let arms = arms_of(n.children@);
    if i < 0 || i >= arms.len() {
        lemma_refl(acc.st, scope, fid);
    } else {
        lemma_arms_lt(n);
        let a = arms[i];
        let st = acc.st;
        let next = match arm_guard(a) {
            None => {
                let s = next_idx(st);
                let st1 = nested(cfg_node(a, fid, src, with_prev(st, None), scope), st);
                let e = sat_dec(next_idx(st1));
                ArmsResult {
                    st: push_edge(st1, d, s, CfgEdgeType::ConditionalTrue),
                    spans: acc.spans.push((s, e)),
                    guards: acc.guards.push(None),
                }
            },
            Some(gi) => {
                let pat = a.children@[0];
                let g = next_idx(st);
                let st1 = push_edge(push_block(st, node_block(pat.children@[gi], fid, "match_guard"@, "conditional"@)), d, g, CfgEdgeType::ConditionalTrue);
                let s = next_idx(st1);
                let st2 = match first_named_after_kind(a.children@, "=>"@) {
                    Some(bi) => if 0 <= bi < a.children@.len() {
                        nested(cfg_node(a.children@[bi], fid, src, with_prev(st1, Some(g)), scope), st1)
                    } else {
                        st1
                    },
                    None => st1,
                };
                let e = sat_dec(next_idx(st2));
                ArmsResult {
                    st: if s > g { push_edge(st2, g, s, CfgEdgeType::ConditionalTrue) } else { st2 },
                    spans: acc.spans.push((s, e)),
                    guards: acc.guards.push(Some(g)),
                }
            },
        };
        assert(cfg_arms(n, i, fid, src, acc, d, scope) == cfg_arms(n, i + 1, fid, src, next, d, scope));
        lemma_arms(n, i + 1, fid, src, next, d, scope);
        assert(next.st.blocks.len() <= usize::MAX);
        let rr = cfg_arms(n, i + 1, fid, src, next, d, scope);
        let valid = prev_in(st) && scope_in(scope, st) && arms_in(acc, d) && edges_near(st);
        match arm_guard(a) {
            None => {
                let s = next_idx(st);
                let inner = cfg_node(a, fid, src, with_prev(st, None), scope);
                let st1 = nested(inner, st);
                lemma_node(a, fid, src, with_prev(st, None), scope);
                lemma_nested(st, None, inner, scope, fid);
                if d < st1.blocks.len() {
                    lemma_edge_near(st1, d, s, CfgEdgeType::ConditionalTrue);
                }
                assert(grows(st, next.st)) by {
                    assert(next.st.blocks == st1.blocks);
                    assert(next.st.edges.subrange(0, st.edges.len() as int) =~= st1.edges.subrange(0, st.edges.len() as int));
                }
                assert(fresh_tagged(st, next.st, fid)) by {
                    assert(next.st.blocks == st1.blocks);
                }
                lemma_tag_chain(st, next.st, rr.st, fid);
                if valid {
                    assert(edges_near(st1));
                    assert(edges_near(next.st));
                    assert(arms_in(next, d)) by {
                        assert forall|k: int| 0 <= k < next.spans.len() implies (#[trigger] next.spans[k]).0 <= next.st.blocks.len()
                            && next.spans[k].1 < next.st.blocks.len() by {
                            if k < acc.spans.len() {
                                assert(next.spans[k] == acc.spans[k]);
                            }
                        }
                        assert forall|k: int| 0 <= k < next.guards.len() implies (#[trigger] next.guards[k] matches Some(g) ==> g < next.st.blocks.len()) by {
                            if k < acc.guards.len() {
                                assert(next.guards[k] == acc.guards[k]);
                            }
                        }
                    }
                }
            },
            Some(gi) => {
                let pat = a.children@[0];
                let g = next_idx(st);
                let gb = node_block(pat.children@[gi], fid, "match_guard"@, "conditional"@);
                let s0 = push_block(st, gb);
                let st1 = push_edge(s0, d, g, CfgEdgeType::ConditionalTrue);
                let s = next_idx(st1);
                let st2 = match first_named_after_kind(a.children@, "=>"@) {
                    Some(bi) => if 0 <= bi < a.children@.len() {
                        nested(cfg_node(a.children@[bi], fid, src, with_prev(st1, Some(g)), scope), st1)
                    } else {
                        st1
                    },
                    None => st1,
                };
                match first_named_after_kind(a.children@, "=>"@) {
                    Some(bi) => if 0 <= bi < a.children@.len() {
                        lemma_child_lt(a, bi);
                        lemma_node(a.children@[bi], fid, src, with_prev(st1, Some(g)), scope);
                    },
                    None => {},
                }
                lemma_block(st, gb, scope, fid);
                if d < st.blocks.len() {
                    lemma_edge(s0, d, g, CfgEdgeType::ConditionalTrue, scope, fid);
                } else {
                    assert(st1.blocks == s0.blocks);
                    assert(st1.edges.subrange(0, s0.edges.len() as int) =~= s0.edges);
                }
                match first_named_after_kind(a.children@, "=>"@) {
                    Some(bi) => if 0 <= bi < a.children@.len() {
                        lemma_nested(st1, Some(g), cfg_node(a.children@[bi], fid, src, with_prev(st1, Some(g)), scope), scope, fid);
                    } else {
                        lemma_refl(st1, scope, fid);
                    },
                    None => lemma_refl(st1, scope, fid),
                }
                if s > g {
                    lemma_edge_near(st2, g, s, CfgEdgeType::ConditionalTrue);
                }
                assert(grows(st, next.st)) by {
                    assert(next.st.blocks.subrange(0, st.blocks.len() as int) =~= st2.blocks.subrange(0, st.blocks.len() as int));
                    assert(next.st.edges.subrange(0, st.edges.len() as int) =~= st2.edges.subrange(0, st.edges.len() as int));
                    assert(st2.blocks.subrange(0, st.blocks.len() as int) =~= st1.blocks.subrange(0, st.blocks.len() as int));
                    assert(st2.edges.subrange(0, st.edges.len() as int) =~= st1.edges.subrange(0, st.edges.len() as int));
                }
                assert(fresh_tagged(st, next.st, fid)) by {
                    assert(next.st.blocks == st2.blocks);
                    assert(st1.blocks == s0.blocks);
                    assert(fresh_tagged(st1, st2, fid));
                    assert(grows(st1, st2));
                    assert forall|i: int| st.blocks.len() <= i < next.st.blocks.len()
                        implies (#[trigger] next.st.blocks[i]).function_id == fid && next.st.blocks[i].cfg_condition is None by {
                        if i < st1.blocks.len() {
                            assert(i == st.blocks.len());
                            assert(st2.blocks.subrange(0, st1.blocks.len() as int)[i] == st2.blocks[i]);
                            assert(st2.blocks[i] == s0.blocks[i]);
                        } else {
                            assert(next.st.blocks[i] == st2.blocks[i]);
                        }
                    }
                }
                lemma_tag_chain(st, next.st, rr.st, fid);
                if valid {
                    lemma_chain(st, s0, st1, scope, fid);
                    lemma_chain(st, st1, st2, scope, fid);
                    assert(edges_near(st2));
                    assert(edges_near(next.st));
                    assert(arms_in(next, d)) by {
                        assert forall|k: int| 0 <= k < next.spans.len() implies (#[trigger] next.spans[k]).0 <= next.st.blocks.len()
                            && next.spans[k].1 < next.st.blocks.len() by {
                            if k < acc.spans.len() {
                                assert(next.spans[k] == acc.spans[k]);
                            }
                        }
                        assert forall|k: int| 0 <= k < next.guards.len() implies (#[trigger] next.guards[k] matches Some(g) ==> g < next.st.blocks.len()) by {
                            if k < acc.guards.len() {
                                assert(next.guards[k] == acc.guards[k]);
                            }
                        }
                    }
                }
            },
        }
        let r = cfg_arms(n, i + 1, fid, src, next, d, scope);
        assert(r.st.blocks.subrange(0, acc.st.blocks.len() as int) =~= next.st.blocks.subrange(0, acc.st.blocks.len() as int));
        assert(r.st.edges.subrange(0, acc.st.edges.len() as int) =~= next.st.edges.subrange(0, acc.st.edges.len() as int));
    }
}

proof fn lemma_guard_false(st: CfgState, guards: Seq<Option<usize>>, spans: Seq<(usize, usize)>, m: usize, i: int)
    ensures
        ({
            let r = guard_false_edges(st, guards, spans, m, i);
            &&& r.blocks == st.blocks
            &&& r.prev == st.prev
            &&& st.edges.len() <= r.edges.len()
            &&& r.edges.subrange(0, st.edges.len() as int) == st.edges
            &&& (spans.len() == guards.len() && m == st.blocks.len()
                && (forall|k: int| 0 <= k < spans.len() ==> (#[trigger] spans[k]).0 <= m)
                && (forall|k: int| 0 <= k < guards.len() ==> (#[trigger] guards[k] matches Some(g) ==> g < m))
                && edges_near(st)) ==> edges_near(r)
        }),
    decreases guards.len() - i,
{
    if 0 <= i < guards.len() {
        let t = if i + 1 < guards.len() {
            match guards[i + 1] {
                Some(ng) => ng,
                None => spans[i + 1].0,
            }
        } else {
            m
        };
        let st1 = match guards[i] {
            Some(g) => push_edge(st, g, t, CfgEdgeType::ConditionalFalse),
            None => st,
        };
        let bounds = spans.len() == guards.len() && m == st.blocks.len()
            && (forall|k: int| 0 <= k < spans.len() ==> (#[trigger] spans[k]).0 <= m)
            && (forall|k: int| 0 <= k < guards.len() ==> (#[trigger] guards[k] matches Some(g) ==> g < m));
        match guards[i] {
            Some(g) => {
                if bounds {
                    assert(guards[i] matches Some(x) ==> x < m);
                    if i + 1 < guards.len() {
                        assert(guards[i + 1] matches Some(x) ==> x < m);
                        assert(spans[i + 1].0 <= m);
                    }
                    lemma_edge_near(st, g, t, CfgEdgeType::ConditionalFalse);
                } else {
                    assert(st1.edges.subrange(0, st.edges.len() as int) =~= st.edges);
                }
            },
            None => {},
        }
        lemma_guard_false(st1, guards, spans, m, i + 1);
        let r = guard_false_edges(st1, guards, spans, m, i + 1);
        assert(r.edges.subrange(0, st.edges.len() as int) =~= st1.edges.subrange(0, st.edges.len() as int));
    } else {
        assert(st.edges.subrange(0, st.edges.len() as int) =~= st.edges);
    }
}

proof fn lemma_merge_edges(st: CfgState, spans: Seq<(usize, usize)>, m: usize, i: int)
    ensures
        ({
            let r = merge_edges(st, spans, m, i);
            &&& r.blocks == st.blocks
            &&& r.prev == st.prev
            &&& st.edges.len() <= r.edges.len()
            &&& r.edges.subrange(0, st.edges.len() as int) == st.edges
            &&& (m < st.blocks.len() && (forall|k: int| 0 <= k < spans.len() ==> (#[trigger] spans[k]).1 < st.blocks.len())
                && edges_in(st)) ==> edges_in(r)
        }),
    decreases spans.len() - i,
{
    if 0 <= i < spans.len() {
        let st1 = if spans[i].1 >= spans[i].0 { push_edge(st, spans[i].1, m, CfgEdgeType::Fallthrough) } else { st };
        if spans[i].1 >= spans[i].0 {
            if m < st.blocks.len() && (forall|k: int| 0 <= k < spans.len() ==> (#[trigger] spans[k]).1 < st.blocks.len()) {
                assert(spans[i].1 < st.blocks.len());
                lemma_edge(st, spans[i].1, m, CfgEdgeType::Fallthrough, no_loop(), 0);
            } else {
                assert(st1.edges.subrange(0, st.edges.len() as int) =~= st.edges);
            }
        }
        lemma_merge_edges(st1, spans, m, i + 1);
        let r = merge_edges(st1, spans, m, i + 1);
        assert(r.edges.subrange(0, st.edges.len() as int) =~= st1.edges.subrange(0, st.edges.len() as int));
    } else {
        assert(st.edges.subrange(0, st.edges.len() as int) =~= st.edges);
    }
}

proof fn lemma_match(n: SyntaxNode, fid: int, src: Seq<u8>, st: CfgState, scope: LoopScope)
    requires
        cfg_match(n, fid, src, st, scope).blocks.len() <= usize::MAX,
    ensures
        step(st, scope, cfg_match(n, fid, src, st, scope), fid),
    decreases height(n), 4int, 0int,
{
    let d = next_idx(st);
    let kind = if n.kind@ == "match_expression"@ { "match"@ } else { "switch"@ };
    let b = node_block(n, fid, kind, "conditional"@);
    let st1 = link_prev(push_block(st, b), d);
    let acc0 = ArmsResult { st: st1, spans: seq![], guards: seq![] };
    let r = cfg_arms(n, 0, fid, src, acc0, d, scope);
    let m = next_idx(r.st);
    let st3 = guard_false_edges(r.st, r.guards, r.spans, m, 0);
    let st4 = push_block(st3, end_block(n, fid, "merge"@));
    let st5 = merge_edges(st4, r.spans, m, 0);
    let fin = cfg_match(n, fid, src, st, scope);
    assert(fin == with_prev(st5, Some(m)));
    lemma_merge_edges(st4, r.spans, m, 0);
    lemma_guard_false(r.st, r.guards, r.spans, m, 0);
    lemma_arms(n, 0, fid, src, acc0, d, scope);
    lemma_open(st, b, scope, fid);
    lemma_tag_chain(st, st1, r.st, fid);
    assert(fresh_tagged(st, fin, fid)) by {
        assert(fin.blocks == st5.blocks);
        assert(st5.blocks == st4.blocks);
        assert(st3.blocks == r.st.blocks);
        assert(st4.blocks == r.st.blocks.push(end_block(n, fid, "merge"@)));
        assert forall|i: int| st.blocks.len() <= i < fin.blocks.len()
            implies (#[trigger] fin.blocks[i]).function_id == fid && fin.blocks[i].cfg_condition is None by {
            if i < r.st.blocks.len() {
                assert(fin.blocks[i] == r.st.blocks[i]);
            }
        }
    }
    assert(grows(st, fin)) by {
        assert(st4.blocks.subrange(0, st.blocks.len() as int) =~= r.st.blocks.subrange(0, st.blocks.len() as int));
        assert(r.st.blocks.subrange(0, st.blocks.len() as int) =~= st1.blocks.subrange(0, st.blocks.len() as int));
        assert(st5.edges.subrange(0, st.edges.len() as int) =~= st4.edges.subrange(0, st.edges.len() as int));
        assert(st3.edges.subrange(0, st.edges.len() as int) =~= r.st.edges.subrange(0, st.edges.len() as int));
        assert(r.st.edges.subrange(0, st.edges.len() as int) =~= st1.edges.subrange(0, st.edges.len() as int));
    }
    if prev_in(st) && scope_in(scope, st) {
        if edges_near(st1) {
            assert(arms_in(acc0, d));
            lemma_block_closes(st3, end_block(n, fid, "merge"@));
            assert(edges_in(fin));
            assert(edges_near(fin)) by {
                assert forall|e: int| 0 <= e < fin.edges.len() implies (#[trigger] fin.edges[e]).source_idx < fin.blocks.len() + 1
                    && fin.edges[e].target_idx < fin.blocks.len() + 1 by {
                    assert(edges_in(fin));
                }
            }
        } else {
            assert(!edges_near(st)) by {
                if edges_near(st) {
                    assert(edges_near(st1));
                }
            }
            assert(!edges_in(st)) by {
                if edges_in(st) {
                    assert(edges_in(st1));
                    assert(edges_near(st1)) by {
                        assert forall|e: int| 0 <= e < st1.edges.len() implies (#[trigger] st1.edges[e]).source_idx < st1.blocks.len() + 1
                            && st1.edges[e].target_idx < st1.blocks.len() + 1 by {
                            assert(edges_in(st1));
                        }
                    }
                }
            }
        }
    }
}

proof fn lemma_short_circuit(n: SyntaxNode, fid: int, src: Seq<u8>, st: CfgState, scope: LoopScope, is_and: bool)
    requires
        cfg_short_circuit(n, fid, src, st, scope, is_and).blocks.len() <= usize::MAX,
    ensures
        step(st, scope, cfg_short_circuit(n, fid, src, st, scope, is_and), fid),
    decreases height(n), 4int, 0int,
{
    let cs = n.children@;
    let left = first_named_from(cs, 0);
    let right = match left {
        Some(li) => first_named_from(cs, li + 1),
        None => None,
    };
    let l = next_idx(st);
    let b = node_block(n, fid, if is_and { "and"@ } else { "or"@ }, "conditional"@);
    let st1 = link_prev(push_block(st, b), l);
    let st2 = match left {
        Some(li) => if 0 <= li < cs.len() {
            nested(cfg_node(cs[li], fid, src, with_prev(st1, Some(l)), scope), st1)
        } else {
            st1
        },
        None => st1,
    };
    let m = next_idx(st2);
    let st3 = push_block(st2, end_block(n, fid, "merge"@));
    let fin = cfg_short_circuit(n, fid, src, st, scope, is_and);
    let (st4, rest) = match right {
        Some(ri) => if 0 <= ri < cs.len() {
            let r = next_idx(st3);
            let st_r = push_block(st3, node_block(cs[ri], fid, "short_circuit_rhs"@, "fallthrough"@));
            let st_e = push_edge(
                push_edge(st_r, l, r, if is_and { CfgEdgeType::ConditionalTrue } else { CfgEdgeType::ConditionalFalse }),
                l, m, if is_and { CfgEdgeType::ConditionalFalse } else { CfgEdgeType::ConditionalTrue });
            let st_p = cfg_node(cs[ri], fid, src, with_prev(st_e, Some(r)), scope);
            (match st_p.prev {
                Some(x) => push_edge(st_p, x, m, CfgEdgeType::Fallthrough),
                None => st_p,
            }, true)
        } else {
            (st3, false)
        },
        None => (push_edge(st3, l, m, CfgEdgeType::Fallthrough), false),
    };
    assert(fin == with_prev(st4, Some(m)));
    match right {
        Some(ri) => if 0 <= ri < cs.len() {
            let r = next_idx(st3);
            let st_r = push_block(st3, node_block(cs[ri], fid, "short_circuit_rhs"@, "fallthrough"@));
            let ty1 = if is_and { CfgEdgeType::ConditionalTrue } else { CfgEdgeType::ConditionalFalse };
            let ty2 = if is_and { CfgEdgeType::ConditionalFalse } else { CfgEdgeType::ConditionalTrue };
            let st_e1 = push_edge(st_r, l, r, ty1);
            let st_e = push_edge(st_e1, l, m, ty2);
            let st_p = cfg_node(cs[ri], fid, src, with_prev(st_e, Some(r)), scope);
            lemma_child_lt(n, ri);
            lemma_node(cs[ri], fid, src, with_prev(st_e, Some(r)), scope);
            match left {
                Some(li) => if 0 <= li < cs.len() {
                    lemma_child_lt(n, li);
                    lemma_node(cs[li], fid, src, with_prev(st1, Some(l)), scope);
                },
                None => {},
            }
            lemma_open(st, b, scope, fid);
            match left {
                Some(li) => if 0 <= li < cs.len() {
                    lemma_nested(st1, Some(l), cfg_node(cs[li], fid, src, with_prev(st1, Some(l)), scope), scope, fid);
                } else {
                    lemma_refl(st1, scope, fid);
                },
                None => lemma_refl(st1, scope, fid),
            }
            lemma_chain(st, st1, st2, scope, fid);
            lemma_block(st2, end_block(n, fid, "merge"@), scope, fid);
            lemma_chain(st, st2, st3, scope, fid);
            lemma_block(st3, node_block(cs[ri], fid, "short_circuit_rhs"@, "fallthrough"@), scope, fid);
            lemma_chain(st, st3, st_r, scope, fid);
            lemma_edge(st_r, l, r, ty1, scope, fid);
            lemma_chain(st, st_r, st_e1, scope, fid);
            lemma_edge(st_e1, l, m, ty2, scope, fid);
            lemma_chain(st, st_e1, st_e, scope, fid);
            lemma_prev(st_e, Some(r), scope, fid);
            lemma_chain(st, st_e, with_prev(st_e, Some(r)), scope, fid);
            lemma_chain(st, with_prev(st_e, Some(r)), st_p, scope, fid);
            assert(st4 == (match st_p.prev {
                Some(x) => push_edge(st_p, x, m, CfgEdgeType::Fallthrough),
                None => st_p,
            }));
            assert(m < st_p.blocks.len());
            match st_p.prev {
                Some(x) => {
                    if prev_in(st_p) {
                        lemma_edge(st_p, x, m, CfgEdgeType::Fallthrough, scope, fid);
                        assert(step(st_p, scope, st4, fid));
                    } else {
                        assert(st4.blocks == st_p.blocks);
                        assert(st4.edges.subrange(0, st_p.edges.len() as int) =~= st_p.edges);
                        assert(st4.blocks.subrange(0, st_p.blocks.len() as int) =~= st_p.blocks);
                        assert(grows(st_p, st4));
                        assert(keeps(st_p, scope, st4));
                    }
                },
                None => {
                    lemma_refl(st_p, scope, fid);
                    assert(step(st_p, scope, st4, fid));
                },
            }
            lemma_chain(st, st_p, st4, scope, fid);
        } else {
            match left {
                Some(li) => if 0 <= li < cs.len() {
                    lemma_child_lt(n, li);
                    lemma_node(cs[li], fid, src, with_prev(st1, Some(l)), scope);
                    lemma_open(st, b, scope, fid);
                    lemma_nested(st1, Some(l), cfg_node(cs[li], fid, src, with_prev(st1, Some(l)), scope), scope, fid);
                } else {
                    lemma_open(st, b, scope, fid);
                    lemma_refl(st1, scope, fid);
                },
                None => {
                    lemma_open(st, b, scope, fid);
                    lemma_refl(st1, scope, fid);
                },
            }
            lemma_chain(st, st1, st2, scope, fid);
            lemma_block(st2, end_block(n, fid, "merge"@), scope, fid);
            lemma_chain(st, st2, st3, scope, fid);
        },
        None => {
            match left {
                Some(li) => if 0 <= li < cs.len() {
                    lemma_child_lt(n, li);
                    lemma_node(cs[li], fid, src, with_prev(st1, Some(l)), scope);
                    lemma_open(st, b, scope, fid);
                    lemma_nested(st1, Some(l), cfg_node(cs[li], fid, src, with_prev(st1, Some(l)), scope), scope, fid);
                } else {
                    lemma_open(st, b, scope, fid);
                    lemma_refl(st1, scope, fid);
                },
                None => {
                    lemma_open(st, b, scope, fid);
                    lemma_refl(st1, scope, fid);
                },
            }
            lemma_chain(st, st1, st2, scope, fid);
            lemma_block(st2, end_block(n, fid, "merge"@), scope, fid);
            lemma_chain(st, st2, st3, scope, fid);
            lemma_edge(st3, l, m, CfgEdgeType::Fallthrough, scope, fid);
            lemma_chain(st, st3, st4, scope, fid);
        },
    }
    lemma_prev(st4, Some(m), scope, fid);
    lemma_chain(st, st4, fin, scope, fid);
}

proof fn lemma_default(n: SyntaxNode, fid: int, src: Seq<u8>, st: CfgState, scope: LoopScope)
    requires
        cfg_default(n, fid, src, st, scope).blocks.len() <= usize::MAX,
    ensures
        step(st, scope, cfg_default(n, fid, src, st, scope), fid),
    decreases height(n), 4int, 0int,
{
    let i = next_idx(st);
    let b = node_block(n, fid, n.kind@, "fallthrough"@);
    let st1 = link_prev(push_block(st, b), i);
    let st2 = cfg_each_from(n.children@, fid, src, st1, i, true, seq![], scope);
    lemma_each_from(n, n.children@, fid, src, st1, i, true, seq![], scope);
    lemma_open(st, b, scope, fid);
    lemma_chain(st, st1, st2, scope, fid);
    lemma_prev(st2, Some(i), scope, fid);
    lemma_chain(st, st2, cfg_default(n, fid, src, st, scope), scope, fid);
}

/// Every edge of a function's control-flow graph joins two of its blocks,
/// the entry block stays first, and the graph holds the entry block's
/// blocks and edges as they were built, only ever appended to; every block
/// belongs to the function and carries no cfg condition (the function's
/// own condition is put on afterwards, see `with_condition`).
pub proof fn lemma_function_graph_edges_in(f: SyntaxNode, fid: int, src: Seq<u8>)
    requires
        function_graph(f, fid, src).blocks.len() <= usize::MAX,
    ensures
        forall|i: int| 0 <= i < function_graph(f, fid, src).blocks.len()
            ==> (#[trigger] function_graph(f, fid, src).blocks[i]).function_id == fid
                && function_graph(f, fid, src).blocks[i].cfg_condition is None,
        edges_in(function_graph(f, fid, src)),
        function_graph(f, fid, src).blocks.len() >= 1,
        function_graph(f, fid, src).blocks[0] == node_block(f, fid, "entry"@, "fallthrough"@),
{
    let st0 = CfgState { blocks: seq![node_block(f, fid, "entry"@, "fallthrough"@)], edges: seq![], prev: Some(0) };
    let g = function_graph(f, fid, src);
    match first_child_where(f.children@, 0, fn_body_pred()) {
        Some(j) => if 0 <= j < f.children@.len() {
            let st = cfg_node(f.children@[j], fid, src, st0, no_loop());
            lemma_node(f.children@[j], fid, src, st0, no_loop());
            assert(prev_in(st0) && scope_in(no_loop(), st0) && edges_in(st0));
            assert(st.blocks[0] == st.blocks.subrange(0, 1)[0]);
            if st.blocks.len() > 1 && no_edge_from_entry(st.edges) {
                lemma_edge(st, 0, 1, CfgEdgeType::Fallthrough, no_loop(), fid);
            }
        },
        None => {},
    }
}

} // verus!
