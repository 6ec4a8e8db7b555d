//! The control-flow graph that extraction builds from a syntax tree, stated
//! as spec functions over plain values. `cfg_edges` computes it.

use vstd::prelude::*;
use vstd::utf8::{decode_utf8, is_char_boundary};
use crate::syntax::SyntaxNode;
use crate::text::trim;

verus! {

/// Kind of a control-flow edge.
#[derive(Debug, Clone, Copy, PartialEq, Eq, Structural)]
pub enum CfgEdgeType {
    /// Unconditional fall-through to the next block.
    Fallthrough,
    /// Conditional branch taken when the condition holds.
    ConditionalTrue,
    /// Conditional branch taken when the condition fails.
    ConditionalFalse,
    /// Unconditional jump (break, goto).
    Jump,
    /// Loop back-edge.
    BackEdge,
    /// Function call.
    Call,
    /// Return from the function.
    Return,
    /// Generator yield.
    Yield,
}

/// The name an edge type is stored under.
pub open spec fn edge_type_name(t: CfgEdgeType) -> Seq<char> {
    match t {
        CfgEdgeType::Fallthrough => "fallthrough"@,
        CfgEdgeType::ConditionalTrue => "conditional_true"@,
        CfgEdgeType::ConditionalFalse => "conditional_false"@,
        CfgEdgeType::Jump => "jump"@,
        CfgEdgeType::BackEdge => "back_edge"@,
        CfgEdgeType::Call => "call"@,
        CfgEdgeType::Return => "return"@,
        CfgEdgeType::Yield => "yield"@,
    }
}

impl CfgEdgeType {
    /// The name the edge type is stored under.
    pub fn as_str(&self) -> (r: &'static str)
        ensures
            r@ == edge_type_name(*self),
    {
        match self {
            CfgEdgeType::Fallthrough => "fallthrough",
            CfgEdgeType::ConditionalTrue => "conditional_true",
            CfgEdgeType::ConditionalFalse => "conditional_false",
            CfgEdgeType::Jump => "jump",
            CfgEdgeType::BackEdge => "back_edge",
            CfgEdgeType::Call => "call",
            CfgEdgeType::Return => "return",
            CfgEdgeType::Yield => "yield",
        }
    }
}

/// A control-flow edge between two blocks of one function, by block index.
#[derive(Debug, Clone, Copy, PartialEq, Eq, Structural)]
pub struct CfgEdge {
    /// Index of the source block.
    pub source_idx: usize,
    /// Index of the target block.
    pub target_idx: usize,
    /// Kind of the edge.
    pub edge_type: CfgEdgeType,
}

/// The enclosing loop, for `break` and `continue`.
#[derive(Debug, Clone, Copy, PartialEq, Eq, Structural)]
pub struct LoopScope {
    /// Loop header, the target of `continue`.
    pub header: Option<usize>,
    /// Loop exit block, the target of `break`.
    pub exit: Option<usize>,
}

/// A block as plain values.
pub struct BlockView {
    pub function_id: int,
    pub kind: Seq<char>,
    pub terminator: Seq<char>,
    pub byte_start: int,
    pub byte_end: int,
    pub start_line: int,
    pub start_col: int,
    pub end_line: int,
    pub end_col: int,
    pub cfg_hash: Option<Seq<char>>,
    pub statements: Option<Seq<Seq<char>>>,
    pub cfg_condition: Option<Seq<char>>,
}

/// A basic block of a function's control-flow graph, with its source span.
#[derive(Debug, Clone)]
pub struct CfgBlock {
    /// Database id of the function the block belongs to.
    pub function_id: i64,
    /// Block kind ("entry", "if", "loop", "merge", ...).
    pub kind: String,
    /// How the block ends ("fallthrough", "conditional", "return", ...).
    pub terminator: String,
    /// Byte offset of the start of the block.
    pub byte_start: u64,
    /// Byte offset of the end of the block.
    pub byte_end: u64,
    /// One-based start line.
    pub start_line: u64,
    /// Zero-based start column.
    pub start_col: u64,
    /// One-based end line.
    pub end_line: u64,
    /// Zero-based end column.
    pub end_col: u64,
    /// Content hash of the block, once computed.
    pub cfg_hash: Option<String>,
    /// Statements of the block, when recorded.
    pub statements: Option<Vec<String>>,
    /// `#[cfg(...)]` condition of the enclosing function.
    pub cfg_condition: Option<String>,
}

/// The text of an optional string.
pub open spec fn opt_text(o: Option<String>) -> Option<Seq<char>> {
    match o {
        Some(t) => Some(t@),
        None => None,
    }
}

impl View for CfgBlock {
    type V = BlockView;

    open spec fn view(&self) -> BlockView {
        BlockView {
            function_id: self.function_id as int,
            kind: self.kind@,
            terminator: self.terminator@,
            byte_start: self.byte_start as int,
            byte_end: self.byte_end as int,
            start_line: self.start_line as int,
            start_col: self.start_col as int,
            end_line: self.end_line as int,
            end_col: self.end_col as int,
            cfg_hash: opt_text(self.cfg_hash),
            statements: match self.statements {
                Some(v) => Some(v@.map_values(|t: String| t@)),
                None => None,
            },
            cfg_condition: opt_text(self.cfg_condition),
        }
    }
}

/// The views of a sequence of blocks.
pub open spec fn block_views(v: Seq<CfgBlock>) -> Seq<BlockView> {
    v.map_values(|b: CfgBlock| b@)
}

/// The graph under construction: blocks, edges, and the block that the next
/// statement falls through from (none after a jump or a return).
pub struct CfgState {
    pub blocks: Seq<BlockView>,
    pub edges: Seq<CfgEdge>,
    pub prev: Option<usize>,
}

/// Height of a syntax tree (a leaf has height 1).
pub open spec fn height(n: SyntaxNode) -> nat
    decreases n, 1int,
{
    1 + heights(n.children@)
}

/// The greatest height among a sequence of trees (0 for none).
pub open spec fn heights(cs: Seq<SyntaxNode>) -> nat
    decreases cs, 0int,
{
    if cs.len() == 0 {
        0
    } else {
        let h = height(cs[0]);
        let r = heights(cs.drop_first());
        if h >= r { h } else { r }
    }
}

pub proof fn lemma_heights_bound(cs: Seq<SyntaxNode>, i: int)
    requires
        0 <= i < cs.len(),
    ensures
        height(cs[i]) <= heights(cs),
    decreases cs.len(),
{
    if i > 0 {
        lemma_heights_bound(cs.drop_first(), i - 1);
    }
}

pub proof fn lemma_heights_drop(cs: Seq<SyntaxNode>)
    requires
        cs.len() > 0,
    ensures
        heights(cs.drop_first()) <= heights(cs),
{
}

/// Every line number of the tree fits when it is made one-based in 64 bits.
pub open spec fn positions_fit(n: SyntaxNode) -> bool
    decreases n,
{
    &&& n.start_row < u64::MAX
    &&& n.end_row < u64::MAX
    &&& forall|i: int| 0 <= i < n.children@.len() ==> positions_fit(#[trigger] n.children@[i])
}

/// The block that spans a node.
pub open spec fn node_block(n: SyntaxNode, fid: int, kind: Seq<char>, term: Seq<char>) -> BlockView {
    BlockView {
        function_id: fid,
        kind,
        terminator: term,
        byte_start: n.start_byte as int,
        byte_end: n.end_byte as int,
        start_line: n.start_row + 1,
        start_col: n.start_col as int,
        end_line: n.end_row + 1,
        end_col: n.end_col as int,
        cfg_hash: None,
        statements: None,
        cfg_condition: None,
    }
}

/// An empty block placed at the end of a node (merge points, loop exits).
pub open spec fn end_block(n: SyntaxNode, fid: int, kind: Seq<char>) -> BlockView {
    BlockView {
        function_id: fid,
        kind,
        terminator: "fallthrough"@,
        byte_start: n.end_byte as int,
        byte_end: n.end_byte as int,
        start_line: n.end_row + 1,
        start_col: n.end_col as int,
        end_line: n.end_row + 1,
        end_col: n.end_col as int,
        cfg_hash: None,
        statements: None,
        cfg_condition: None,
    }
}

/// Index the next block will take.
pub open spec fn next_idx(st: CfgState) -> usize {
    st.blocks.len() as usize
}

pub open spec fn push_block(st: CfgState, b: BlockView) -> CfgState {
    CfgState { blocks: st.blocks.push(b), ..st }
}

pub open spec fn push_edge(st: CfgState, s: usize, t: usize, ty: CfgEdgeType) -> CfgState {
    CfgState { edges: st.edges.push(CfgEdge { source_idx: s, target_idx: t, edge_type: ty }), ..st }
}

pub open spec fn with_prev(st: CfgState, p: Option<usize>) -> CfgState {
    CfgState { prev: p, ..st }
}

/// Fall-through edge from the current block (if any) to block `t`.
pub open spec fn link_prev(st: CfgState, t: usize) -> CfgState {
    match st.prev {
        Some(p) => push_edge(st, p, t, CfgEdgeType::Fallthrough),
        None => st,
    }
}

/// Appends the block of a simple statement: it is linked from the current
/// block and becomes the current block.
pub open spec fn simple_stmt(n: SyntaxNode, fid: int, st: CfgState, kind: Seq<char>, term: Seq<char>) -> CfgState {
    let i = next_idx(st);
    with_prev(link_prev(push_block(st, node_block(n, fid, kind, term)), i), Some(i))
}

pub open spec fn is_if_kind(k: Seq<char>) -> bool {
    k == "if_expression"@ || k == "if_statement"@
}

pub open spec fn is_loop_kind(k: Seq<char>) -> bool {
    k == "loop_expression"@ || k == "for_expression"@ || k == "while_expression"@
        || k == "for_statement"@ || k == "while_statement"@ || k == "do_statement"@
}

pub open spec fn is_switch_kind(k: Seq<char>) -> bool {
    k == "match_expression"@ || k == "switch_statement"@ || k == "expression_switch_statement"@
        || k == "type_switch_statement"@
}

pub open spec fn is_block_kind(k: Seq<char>) -> bool {
    k == "block"@ || k == "statement_block"@
}

/// Node kinds that carry control flow of their own.
pub open spec fn spec_is_control_flow(k: Seq<char>) -> bool {
    ||| is_if_kind(k)
    ||| k == "match_expression"@ ||| k == "match_statement"@
    ||| k == "switch_statement"@ ||| k == "expression_switch_statement"@ ||| k == "type_switch_statement"@
    ||| k == "loop_expression"@ ||| k == "for_expression"@ ||| k == "while_expression"@
    ||| k == "for_statement"@ ||| k == "while_statement"@ ||| k == "do_statement"@
    ||| k == "return_expression"@ ||| k == "return_statement"@
    ||| k == "break_expression"@ ||| k == "break_statement"@
    ||| k == "continue_expression"@ ||| k == "continue_statement"@
    ||| k == "try_expression"@ ||| k == "await_expression"@ ||| k == "closure_expression"@
}

/// Kinds whose nodes extraction visits inside bindings and statements.
pub open spec fn spec_is_cfg_relevant(k: Seq<char>) -> bool {
    spec_is_control_flow(k) || k == "binary_expression"@ || k == "call_expression"@ || k == "call_statement"@
}

/// Text of the source bytes `[s, e)`, when they are a whole run of characters.
pub open spec fn source_text(src: Seq<u8>, s: int, e: int) -> Option<Seq<char>> {
    if 0 <= s <= e <= src.len() && is_char_boundary(src, s) && is_char_boundary(src, e) {
        Some(decode_utf8(src.subrange(s, e)))
    } else {
        None
    }
}

/// Index of the first unnamed child of `cs` at or after position `i`.
pub open spec fn first_unnamed_from(cs: Seq<SyntaxNode>, i: int) -> Option<int>
    decreases cs.len() - i,
{
    if i < 0 || i >= cs.len() {
        None
    } else if !cs[i].named {
        Some(i)
    } else {
        first_unnamed_from(cs, i + 1)
    }
}

/// The operator of a binary expression: the trimmed text of its first
/// unnamed child.
pub open spec fn binary_operator(n: SyntaxNode, src: Seq<u8>) -> Option<Seq<char>> {
    match first_unnamed_from(n.children@, 0) {
        Some(i) => match source_text(src, n.children@[i].start_byte as int, n.children@[i].end_byte as int) {
            Some(t) => Some(trim(t)),
            None => None,
        },
        None => None,
    }
}

/// Index of the first child at or after `i` whose kind satisfies `p`.
pub open spec fn first_child_where(cs: Seq<SyntaxNode>, i: int, p: spec_fn(Seq<char>) -> bool) -> Option<int>
    decreases cs.len() - i,
{
    if i < 0 || i >= cs.len() {
        None
    } else if p(cs[i].kind@) {
        Some(i)
    } else {
        first_child_where(cs, i + 1, p)
    }
}

/// Kind test: exactly `k`.
pub open spec fn kind_pred(k: Seq<char>) -> spec_fn(Seq<char>) -> bool {
    |x: Seq<char>| x == k
}

/// Kind test: a block that can be the body of an `if` or an `else`.
pub open spec fn body_pred() -> spec_fn(Seq<char>) -> bool {
    |x: Seq<char>| is_body_kind(x)
}

/// Kind test: a block that can be the body of a loop.
pub open spec fn loop_body_pred() -> spec_fn(Seq<char>) -> bool {
    |x: Seq<char>| is_block_kind(x)
}

/// Index of the first named child at or after `i` whose kind is not `k`.
pub open spec fn first_named_not(cs: Seq<SyntaxNode>, i: int, k: Seq<char>) -> Option<int>
    decreases cs.len() - i,
{
    if i < 0 || i >= cs.len() {
        None
    } else if cs[i].kind@ != k && cs[i].named {
        Some(i)
    } else {
        first_named_not(cs, i + 1, k)
    }
}

/// Index of the first named child, other than a `k` token, that follows the
/// first child of kind `k`.
pub open spec fn first_named_after_kind(cs: Seq<SyntaxNode>, k: Seq<char>) -> Option<int> {
    match first_child_where(cs, 0, kind_pred(k)) {
        Some(j) => first_named_not(cs, j + 1, k),
        None => None,
    }
}

/// Index of the first named child at or after `i`.
pub open spec fn first_named_from(cs: Seq<SyntaxNode>, i: int) -> Option<int>
    decreases cs.len() - i,
{
    if i < 0 || i >= cs.len() {
        None
    } else if cs[i].named {
        Some(i)
    } else {
        first_named_from(cs, i + 1)
    }
}

/// Index of the first child at or after `i` labelled with field `f`.
pub open spec fn first_with_field(cs: Seq<SyntaxNode>, i: int, f: Seq<char>) -> Option<int>
    decreases cs.len() - i,
{
    if i < 0 || i >= cs.len() {
        None
    } else if (cs[i].field matches Some(x) && x@ == f) {
        Some(i)
    } else {
        first_with_field(cs, i + 1, f)
    }
}

pub open spec fn is_body_kind(k: Seq<char>) -> bool {
    k == "block"@ || k == "statement_block"@ || k == "compound_statement"@
}

pub open spec fn is_else_kind(k: Seq<char>) -> bool {
    k == "else_clause"@ || k == "else"@
}

/// The body of the else clause of an `if`: the first block inside the last
/// else clause that has one, as (clause index, block index).
pub open spec fn else_body(cs: Seq<SyntaxNode>) -> Option<(int, int)>
    decreases cs.len(),
{
    if cs.len() == 0 {
        None
    } else {
        let c = cs.last();
        match first_child_where(c.children@, 0, body_pred()) {
            Some(j) => if is_else_kind(c.kind@) { Some((cs.len() - 1, j)) } else { else_body(cs.drop_last()) },
            None => else_body(cs.drop_last()),
        }
    }
}

pub open spec fn is_binding_kind(k: Seq<char>) -> bool {
    k == "let_declaration"@ || k == "let_statement"@ || k == "assignment_expression"@
        || k == "assignment_statement"@ || k == "macro_invocation"@ || k == "declaration_statement"@
        || k == "item"@
}

pub open spec fn is_let_kind(k: Seq<char>) -> bool {
    k == "let_declaration"@ || k == "let_statement"@
}

pub open spec fn is_assign_kind(k: Seq<char>) -> bool {
    k == "assignment_expression"@ || k == "assignment_statement"@
}

/// Block kind of a binding statement.
pub open spec fn binding_block_kind(k: Seq<char>) -> Seq<char> {
    if is_let_kind(k) { "let"@ }
    else if is_assign_kind(k) { "assign"@ }
    else if k == "macro_invocation"@ { "macro"@ }
    else { "stmt"@ }
}

/// Header block kind of a loop.
pub open spec fn loop_block_kind(k: Seq<char>) -> Seq<char> {
    if k == "loop_expression"@ || k == "for_statement"@ { "loop"@ }
    else if k == "while_expression"@ || k == "while_statement"@ { "while"@ }
    else if k == "for_expression"@ { "for"@ }
    else if k == "do_statement"@ { "do"@ }
    else { "loop"@ }
}

/// Kind test on a node: a match arm.
pub open spec fn arm_pred() -> spec_fn(SyntaxNode) -> bool {
    |g: SyntaxNode| g.kind@ == "match_arm"@
}

/// Kind test on a node: a case of a C-like switch.
pub open spec fn case_pred() -> spec_fn(SyntaxNode) -> bool {
    |g: SyntaxNode| g.kind@ == "switch_case"@ || g.kind@ == "case"@
}

/// Arms contributed by one child of a match or switch: the arms inside a
/// match body, the cases inside a switch body, or the child itself when it is
/// a case of a Go switch.
pub open spec fn arms_here(c: SyntaxNode) -> Seq<SyntaxNode> {
    let k = c.kind@;
    if k == "match_block"@ || k == "match_body"@ {
        c.children@.filter(arm_pred())
    } else if k == "switch_body"@ || k == "body"@ {
        c.children@.filter(case_pred())
    } else if k == "expression_case"@ || k == "default_case"@ || k == "type_case"@ {
        seq![c]
    } else {
        seq![]
    }
}

/// Arms of a match (or cases of a switch) among the children `cs`, in order.
pub open spec fn arms_of(cs: Seq<SyntaxNode>) -> Seq<SyntaxNode>
    decreases cs.len(),
{
    if cs.len() == 0 {
        seq![]
    } else {
        arms_of(cs.drop_last()) + arms_here(cs.last())
    }
}

/// Whether a match arm carries a guard (`pattern if condition => ...`).
pub open spec fn arm_has_guard(a: SyntaxNode) -> bool {
    a.children@.len() > 0 && a.children@[0].kind@ == "match_pattern"@
        && first_child_where(a.children@[0].children@, 0, kind_pred("if"@)) is Some
}

/// The guard condition of an arm.
pub open spec fn arm_guard(a: SyntaxNode) -> Option<int> {
    if arm_has_guard(a) {
        first_named_after_kind(a.children@[0].children@, "if"@)
    } else {
        None
    }
}

pub open spec fn sat_dec(i: usize) -> usize {
    if i > 0 { (i - 1) as usize } else { 0 }
}

pub proof fn lemma_child_lt(n: SyntaxNode, i: int)
    requires
        0 <= i < n.children@.len(),
    ensures
        height(n.children@[i]) < height(n),
{
    lemma_heights_bound(n.children@, i);
}

pub proof fn lemma_else_body_lt(n: SyntaxNode)
    ensures
        else_body(n.children@) matches Some((i, j)) ==> 0 <= i < n.children@.len()
            && 0 <= j < n.children@[i].children@.len()
            && height(n.children@[i].children@[j]) < height(n),
{
    lemma_else_body_in(n.children@);
    if let Some((i, j)) = else_body(n.children@) {
        lemma_child_lt(n, i);
        lemma_child_lt(n.children@[i], j);
    }
}

proof fn lemma_first_child_where_in(cs: Seq<SyntaxNode>, i: int, p: spec_fn(Seq<char>) -> bool)
    ensures
        first_child_where(cs, i, p) matches Some(j) ==> i <= j < cs.len() && p(cs[j].kind@),
    decreases cs.len() - i,
{
    if 0 <= i < cs.len() && !p(cs[i].kind@) {
        lemma_first_child_where_in(cs, i + 1, p);
    }
}

proof fn lemma_else_body_in(cs: Seq<SyntaxNode>)
    ensures
        else_body(cs) matches Some((i, j)) ==> 0 <= i < cs.len() && 0 <= j < cs[i].children@.len(),
    decreases cs.len(),
{
    if cs.len() > 0 {
        lemma_else_body_in(cs.drop_last());
        lemma_first_child_where_in(cs.last().children@, 0, body_pred());
    }
}

/// Every arm found among the children of `n` is lower than `n`.
pub proof fn lemma_arms_lt(n: SyntaxNode)
    ensures
        forall|a: int| 0 <= a < arms_of(n.children@).len() ==> height(#[trigger] arms_of(n.children@)[a]) < height(n),
{
    assert forall|i: int| 0 <= i < n.children@.len() implies height(#[trigger] n.children@[i]) < height(n) by {
        lemma_child_lt(n, i);
    }
    lemma_arms_lt_from(n.children@, height(n));
}

proof fn lemma_arms_here_lt(c: SyntaxNode, h: nat)
    requires
        height(c) < h,
    ensures
        forall|b: int| 0 <= b < arms_here(c).len() ==> height(#[trigger] arms_here(c)[b]) < h,
{
    let k = c.kind@;
    let here = arms_here(c);
    assert forall|b: int| 0 <= b < here.len() implies height(#[trigger] here[b]) < h by {
        if k == "match_block"@ || k == "match_body"@ || k == "switch_body"@ || k == "body"@ {
            assert(c.children@.contains(here[b])) by {
                assert(here.contains(here[b]));
                if k == "match_block"@ || k == "match_body"@ {
                    c.children@.lemma_filter_contains_rev(arm_pred(), here[b]);
                } else {
                    c.children@.lemma_filter_contains_rev(case_pred(), here[b]);
                }
            }
            let w = choose|w: int| 0 <= w < c.children@.len() && c.children@[w] == here[b];
            lemma_heights_bound(c.children@, w);
        }
    }
}

proof fn lemma_arms_lt_from(cs: Seq<SyntaxNode>, h: nat)
    requires
        forall|i: int| 0 <= i < cs.len() ==> height(#[trigger] cs[i]) < h,
    ensures
        forall|a: int| 0 <= a < arms_of(cs).len() ==> height(#[trigger] arms_of(cs)[a]) < h,
    decreases cs.len(),
{
    if cs.len() > 0 {
        let init = cs.drop_last();
        assert forall|i: int| 0 <= i < init.len() implies height(#[trigger] init[i]) < h by {
            assert(init[i] == cs[i]);
        }
        lemma_arms_lt_from(init, h);
        assert(height(cs[cs.len() - 1]) < h);
        lemma_arms_here_lt(cs.last(), h);
        let here = arms_here(cs.last());
        assert forall|a: int| 0 <= a < arms_of(cs).len() implies height(#[trigger] arms_of(cs)[a]) < h by {
            if a < arms_of(init).len() {
                assert(arms_of(cs)[a] == arms_of(init)[a]);
            } else {
                assert(arms_of(cs)[a] == here[a - arms_of(init).len()]);
            }
        }
    }
}

/// Runs `f` on `st` with the current block set to `p`, then restores the
/// current block of `st` (extraction of a nested part from a temporary
/// starting point).
pub open spec fn nested(after: CfgState, st: CfgState) -> CfgState {
    with_prev(after, st.prev)
}

/// The graph after extracting node `n` of function `fid` from state `st`.
pub open spec fn cfg_node(n: SyntaxNode, fid: int, src: Seq<u8>, st: CfgState, scope: LoopScope) -> CfgState
    decreases height(n), 5int, 0int,
{
    let k = n.kind@;
    let cs = n.children@;
    if is_if_kind(k) {
        cfg_if(n, fid, src, st, scope)
    } else if is_loop_kind(k) {
        cfg_loop(n, fid, src, st)
    } else if is_switch_kind(k) {
        cfg_match(n, fid, src, st, scope)
    } else if k == "return_expression"@ || k == "return_statement"@ {
        let i = next_idx(st);
        push_edge(with_prev(link_prev(push_block(st, node_block(n, fid, "return"@, "return"@)), i), None), i, i, CfgEdgeType::Return)
    } else if k == "break_expression"@ || k == "break_statement"@ {
        let i = next_idx(st);
        let st1 = with_prev(link_prev(push_block(st, node_block(n, fid, "break"@, "jump"@)), i), None);
        match scope.exit {
            Some(x) => push_edge(st1, i, x, CfgEdgeType::Jump),
            None => st1,
        }
    } else if k == "continue_expression"@ || k == "continue_statement"@ {
        let i = next_idx(st);
        let st1 = with_prev(link_prev(push_block(st, node_block(n, fid, "continue"@, "jump"@)), i), None);
        match scope.header {
            Some(h) => push_edge(st1, i, h, CfgEdgeType::BackEdge),
            None => st1,
        }
    } else if k == "block"@ || k == "compound_statement"@ || k == "statement_list"@ {
        cfg_seq(cs, fid, src, st, scope)
    } else if k == "call_expression"@ || k == "call_statement"@ {
        let i = next_idx(st);
        with_prev(push_edge(link_prev(push_block(st, node_block(n, fid, "call"@, "call"@)), i), i, i, CfgEdgeType::Call), Some(i))
    } else if is_binding_kind(k) {
        let st1 = if is_let_kind(k) && first_with_field(cs, 0, "alternative"@) is Some {
            cfg_let_else(n, fid, src, st, scope)
        } else {
            simple_stmt(n, fid, st, binding_block_kind(k), "fallthrough"@)
        };
        if is_let_kind(k) || is_assign_kind(k) {
            cfg_relevant(cs, fid, src, st1, scope)
        } else {
            st1
        }
    } else if k == "statement"@ || k == "expression_statement"@ {
        if cs.len() == 0 {
            st
        } else if spec_is_cfg_relevant(cs[0].kind@) {
            cfg_node(cs[0], fid, src, st, scope)
        } else {
            simple_stmt(n, fid, st, "stmt"@, "fallthrough"@)
        }
    } else if k == "try_expression"@ {
        let t = next_idx(st);
        let st1 = link_prev(push_block(st, node_block(n, fid, "try"@, "conditional"@)), t);
        let st2 = cfg_each_from(cs, fid, src, st1, t, false, "try"@, scope);
        push_edge(st2, t, t, CfgEdgeType::Return)
    } else if k == "await_expression"@ {
        let a = next_idx(st);
        let st1 = link_prev(push_block(st, node_block(n, fid, "await"@, "fallthrough"@)), a);
        cfg_each_from(cs, fid, src, st1, a, false, "await"@, scope)
    } else if k == "closure_expression"@ {
        let c = next_idx(st);
        let st1 = link_prev(push_block(st, node_block(n, fid, "closure"@, "fallthrough"@)), c);
        match first_child_where(cs, 0, kind_pred("block"@)) {
            Some(j) => if 0 <= j < cs.len() {
                proof { lemma_child_lt(n, j); }
                nested(cfg_node(cs[j], fid, src, with_prev(st1, Some(c)), scope), st1)
            } else {
                st1
            },
            None => st1,
        }
    } else if k == "binary_expression"@ {
        let op = binary_operator(n, src);
        if op == Some("&&"@) {
            cfg_short_circuit(n, fid, src, st, scope, true)
        } else if op == Some("||"@) {
            cfg_short_circuit(n, fid, src, st, scope, false)
        } else {
            cfg_default(n, fid, src, st, scope)
        }
    } else if cs.len() > 0 && !n.named {
        cfg_seq(cs, fid, src, st, scope)
    } else if n.named {
        simple_stmt(n, fid, st, k, "fallthrough"@)
    } else {
        st
    }
}

/// Siblings extracted one after the other, each falling through to the next.
pub open spec fn cfg_seq(cs: Seq<SyntaxNode>, fid: int, src: Seq<u8>, st: CfgState, scope: LoopScope) -> CfgState
    decreases heights(cs), 6int, cs.len(),
{
    if cs.len() == 0 {
        st
    } else {
        proof { lemma_heights_bound(cs, 0); }
        cfg_seq(cs.drop_first(), fid, src, cfg_node(cs[0], fid, src, st, scope), scope)
    }
}

/// The children among `cs` whose kind is relevant to control flow, extracted
/// one after the other.
pub open spec fn cfg_relevant(cs: Seq<SyntaxNode>, fid: int, src: Seq<u8>, st: CfgState, scope: LoopScope) -> CfgState
    decreases heights(cs), 6int, cs.len(),
{
    if cs.len() == 0 {
        st
    } else {
        proof { lemma_heights_bound(cs, 0); }
        let st1 = if spec_is_cfg_relevant(cs[0].kind@) { cfg_node(cs[0], fid, src, st, scope) } else { st };
        cfg_relevant(cs.drop_first(), fid, src, st1, scope)
    }
}

/// Each selected child extracted from block `from` on its own (named children
/// when `named_only`, else the children whose kind is not `skip`).
pub open spec fn cfg_each_from(cs: Seq<SyntaxNode>, fid: int, src: Seq<u8>, st: CfgState, from: usize, named_only: bool, skip: Seq<char>, scope: LoopScope) -> CfgState
    decreases heights(cs), 6int, cs.len(),
{
    if cs.len() == 0 {
        st
    } else {
        proof { lemma_heights_bound(cs, 0); }
        let pick = if named_only { cs[0].named } else { cs[0].kind@ != skip };
        let st1 = if pick { nested(cfg_node(cs[0], fid, src, with_prev(st, Some(from)), scope), st) } else { st };
        cfg_each_from(cs.drop_first(), fid, src, st1, from, named_only, skip, scope)
    }
}

/// `let ... else { ... }`: a conditional block, the else branch on the false
/// edge, and a merge block on the true edge.
pub open spec fn cfg_let_else(n: SyntaxNode, fid: int, src: Seq<u8>, st: CfgState, scope: LoopScope) -> CfgState
    decreases height(n), 4int, 0int,
{
    let cs = n.children@;
    let s = next_idx(st);
    let st_a = link_prev(push_block(st, node_block(n, fid, "let_else"@, "conditional"@)), s);
    let alt_start = next_idx(st_a);
    let st_b = match first_with_field(cs, 0, "alternative"@) {
        Some(j) => if 0 <= j < cs.len() {
            proof { lemma_child_lt(n, j); }
            nested(cfg_node(cs[j], fid, src, with_prev(st_a, None), scope), st_a)
        } else {
            st_a
        },
        None => st_a,
    };
    let st_c = if alt_start < next_idx(st_b) { push_edge(st_b, s, alt_start, CfgEdgeType::ConditionalFalse) } else { st_b };
    let m = next_idx(st_c);
    with_prev(push_edge(push_block(st_c, end_block(n, fid, "merge"@)), s, m, CfgEdgeType::ConditionalTrue), Some(m))
}

/// `if`: a conditional block, then and else branches extracted afresh,
/// conditional edges into them, and a merge block that ends both.
pub open spec fn cfg_if(n: SyntaxNode, fid: int, src: Seq<u8>, st: CfgState, scope: LoopScope) -> CfgState
    decreases height(n), 4int, 0int,
{
    let cs = n.children@;
    let then_i = first_child_where(cs, 0, body_pred());
    let els = else_body(cs);
    let c = next_idx(st);
    let st1 = link_prev(push_block(st, node_block(n, fid, "if"@, "conditional"@)), c);
    let ts = next_idx(st1);
    let st2 = match then_i {
        Some(j) => if 0 <= j < cs.len() {
            proof { lemma_child_lt(n, j); }
            nested(cfg_node(cs[j], fid, src, with_prev(st1, None), scope), st1)
        } else {
            st1
        },
        None => st1,
    };
    let te = sat_dec(next_idx(st2));
    let es = next_idx(st2);
    let st3 = match els {
        Some((i, j)) => if 0 <= i < cs.len() && 0 <= j < cs[i].children@.len() {
            proof { lemma_else_body_lt(n); }
            nested(cfg_node(cs[i].children@[j], fid, src, with_prev(st2, None), scope), st2)
        } else {
            st2
        },
        None => st2,
    };
    let ee = sat_dec(next_idx(st3));
    let st4 = if then_i is Some { push_edge(st3, c, ts, CfgEdgeType::ConditionalTrue) } else { st3 };
    let st5 = if els is Some {
        push_edge(st4, c, es, CfgEdgeType::ConditionalFalse)
    } else {
        push_edge(st4, c, next_idx(st4), CfgEdgeType::ConditionalFalse)
    };
    let m = next_idx(st5);
    let st6 = push_block(st5, end_block(n, fid, "merge"@));
    let st7 = if then_i is Some && te >= ts { push_edge(st6, te, m, CfgEdgeType::Fallthrough) } else { st6 };
    let st8 = if els is Some && ee >= es { push_edge(st7, ee, m, CfgEdgeType::Fallthrough) } else { st7 };
    with_prev(st8, Some(m))
}

/// Loops: a header block, an exit block, the body extracted in the scope of
/// the loop, a back-edge from the body's last block, and the exit edge.
pub open spec fn cfg_loop(n: SyntaxNode, fid: int, src: Seq<u8>, st: CfgState) -> CfgState
    decreases height(n), 4int, 0int,
{
    let cs = n.children@;
    let h = next_idx(st);
    let st1 = link_prev(push_block(st, node_block(n, fid, loop_block_kind(n.kind@), "conditional"@)), h);
    let x = next_idx(st1);
    let st2 = push_block(st1, end_block(n, fid, "exit"@));
    let bs = next_idx(st2);
    let body = first_child_where(cs, 0, loop_body_pred());
    let st3 = match body {
        Some(j) => if 0 <= j < cs.len() {
            proof { lemma_child_lt(n, j); }
            cfg_node(cs[j], fid, src, with_prev(st2, None), LoopScope { header: Some(h), exit: Some(x) })
        } else {
            st2
        },
        None => st2,
    };
    let st4 = match st3.prev {
        Some(last) => if body is Some && last >= bs { push_edge(st3, last, h, CfgEdgeType::BackEdge) } else { st3 },
        None => st3,
    };
    with_prev(push_edge(st4, h, x, CfgEdgeType::ConditionalFalse), Some(x))
}

/// Result of extracting the arms of a match: the graph, the first and last
/// block of each arm, and each arm's guard block.
pub struct ArmsResult {
    pub st: CfgState,
    pub spans: Seq<(usize, usize)>,
    pub guards: Seq<Option<usize>>,
}

/// The arms of match `n` from the `i`-th on, dispatched from block `d`.
pub open spec fn cfg_arms(n: SyntaxNode, i: int, fid: int, src: Seq<u8>, acc: ArmsResult, d: usize, scope: LoopScope) -> ArmsResult
    decreases height(n), 3int, arms_of(n.children@).len() - i,
{
    let arms = arms_of(n.children@);
    if i < 0 || i >= arms.len() {
        acc
    } else {
        proof { lemma_arms_lt(n); }
        let a = arms[i];
        let st = acc.st;
        let next = match arm_guard(a) {
            None => {
                let s = next_idx(st);
                let st1 = nested(cfg_node(a, fid, src, with_prev(st, None), scope), st);
                let e = sat_dec(next_idx(st1));
                ArmsResult {
                    st: push_edge(st1, d, s, CfgEdgeType::ConditionalTrue),
                    spans: acc.spans.push((s, e)),
                    guards: acc.guards.push(None),
                }
            },
            Some(gi) => {
                let pat = a.children@[0];
                let g = next_idx(st);
                let st1 = push_edge(push_block(st, node_block(pat.children@[gi], fid, "match_guard"@, "conditional"@)), d, g, CfgEdgeType::ConditionalTrue);
                let s = next_idx(st1);
                let st2 = match first_named_after_kind(a.children@, "=>"@) {
                    Some(bi) => if 0 <= bi < a.children@.len() {
                        proof { lemma_child_lt(a, bi); }
                        nested(cfg_node(a.children@[bi], fid, src, with_prev(st1, Some(g)), scope), st1)
                    } else {
                        st1
                    },
                    None => st1,
                };
                let e = sat_dec(next_idx(st2));
                ArmsResult {
                    st: if s > g { push_edge(st2, g, s, CfgEdgeType::ConditionalTrue) } else { st2 },
                    spans: acc.spans.push((s, e)),
                    guards: acc.guards.push(Some(g)),
                }
            },
        };
        cfg_arms(n, i + 1, fid, src, next, d, scope)
    }
}

/// False edges of the guards `guards[i..]`: to the next arm's guard or first
/// block, or to the merge block `m` after the last arm.
pub open spec fn guard_false_edges(st: CfgState, guards: Seq<Option<usize>>, spans: Seq<(usize, usize)>, m: usize, i: int) -> CfgState
    decreases guards.len() - i,
{
    if i < 0 || i >= guards.len() {
        st
    } else {
        let st1 = match guards[i] {
            Some(g) => {
                let t = if i + 1 < guards.len() {
                    match guards[i + 1] {
                        Some(ng) => ng,
                        None => spans[i + 1].0,
                    }
                } else {
                    m
                };
                push_edge(st, g, t, CfgEdgeType::ConditionalFalse)
            },
            None => st,
        };
        guard_false_edges(st1, guards, spans, m, i + 1)
    }
}

/// Fall-through edges from the last block of each non-empty arm `spans[i..]`
/// to the merge block `m`.
pub open spec fn merge_edges(st: CfgState, spans: Seq<(usize, usize)>, m: usize, i: int) -> CfgState
    decreases spans.len() - i,
{
    if i < 0 || i >= spans.len() {
        st
    } else {
        let st1 = if spans[i].1 >= spans[i].0 { push_edge(st, spans[i].1, m, CfgEdgeType::Fallthrough) } else { st };
        merge_edges(st1, spans, m, i + 1)
    }
}

/// `match` / `switch`: a dispatch block, each arm (with its guard), guard
/// false edges, and a merge block that ends every arm.
pub open spec fn cfg_match(n: SyntaxNode, fid: int, src: Seq<u8>, st: CfgState, scope: LoopScope) -> CfgState
    decreases height(n), 4int, 0int,
{
    let d = next_idx(st);
    let kind = if n.kind@ == "match_expression"@ { "match"@ } else { "switch"@ };
    let st1 = link_prev(push_block(st, node_block(n, fid, kind, "conditional"@)), d);
    let r = cfg_arms(n, 0, fid, src, ArmsResult { st: st1, spans: seq![], guards: seq![] }, d, scope);
    let m = next_idx(r.st);
    let st3 = guard_false_edges(r.st, r.guards, r.spans, m, 0);
    let st4 = push_block(st3, end_block(n, fid, "merge"@));
    with_prev(merge_edges(st4, r.spans, m, 0), Some(m))
}

/// `a && b` / `a || b`: a conditional block for the left operand, the right
/// operand on one branch, and a merge block reached by both.
pub open spec fn cfg_short_circuit(n: SyntaxNode, fid: int, src: Seq<u8>, st: CfgState, scope: LoopScope, is_and: bool) -> CfgState
    decreases height(n), 4int, 0int,
{
    let cs = n.children@;
    let left = first_named_from(cs, 0);
    let right = match left {
        Some(li) => first_named_from(cs, li + 1),
        None => None,
    };
    let l = next_idx(st);
    let st1 = link_prev(push_block(st, node_block(n, fid, if is_and { "and"@ } else { "or"@ }, "conditional"@)), l);
    let st2 = match left {
        Some(li) => if 0 <= li < cs.len() {
            proof { lemma_child_lt(n, li); }
            nested(cfg_node(cs[li], fid, src, with_prev(st1, Some(l)), scope), st1)
        } else {
            st1
        },
        None => st1,
    };
    let m = next_idx(st2);
    let st3 = push_block(st2, end_block(n, fid, "merge"@));
    let st4 = match right {
        Some(ri) => if 0 <= ri < cs.len() {
            proof { lemma_child_lt(n, ri); }
            let r = next_idx(st3);
            let st_r = push_block(st3, node_block(cs[ri], fid, "short_circuit_rhs"@, "fallthrough"@));
            let st_e = push_edge(
                push_edge(st_r, l, r, if is_and { CfgEdgeType::ConditionalTrue } else { CfgEdgeType::ConditionalFalse }),
                l, m, if is_and { CfgEdgeType::ConditionalFalse } else { CfgEdgeType::ConditionalTrue });
            let st_p = cfg_node(cs[ri], fid, src, with_prev(st_e, Some(r)), scope);
            match st_p.prev {
                Some(x) => push_edge(st_p, x, m, CfgEdgeType::Fallthrough),
                None => st_p,
            }
        } else {
            st3
        },
        None => push_edge(st3, l, m, CfgEdgeType::Fallthrough),
    };
    with_prev(st4, Some(m))
}

/// Other expressions: a block for the node, each named child extracted from
/// it, and the node's block as the current block.
pub open spec fn cfg_default(n: SyntaxNode, fid: int, src: Seq<u8>, st: CfgState, scope: LoopScope) -> CfgState
    decreases height(n), 4int, 0int,
{
    let i = next_idx(st);
    let st1 = link_prev(push_block(st, node_block(n, fid, n.kind@, "fallthrough"@)), i);
    proof { assert(heights(n.children@) < height(n)); }
    with_prev(cfg_each_from(n.children@, fid, src, st1, i, true, seq![], scope), Some(i))
}


/// Kinds of the nodes that define a function.
pub open spec fn is_function_kind(k: Seq<char>) -> bool {
    k == "function_item"@ || k == "function_definition"@ || k == "function_declaration"@
        || k == "method_declaration"@
}

/// Kind test: the body block of a function.
pub open spec fn fn_body_pred() -> spec_fn(Seq<char>) -> bool {
    |x: Seq<char>| x == "block"@ || x == "compound_statement"@
}

/// Where a function was found: the node, and its parent with its position
/// among the parent's children, unless it is the node searched from.
pub type FnLocation = (SyntaxNode, Option<(SyntaxNode, int)>);

/// The first function node of the tree in a depth-first walk that visits
/// the node itself, then its children from the last to the first.
pub open spec fn find_fn(n: SyntaxNode) -> Option<FnLocation>
    decreases height(n), 1int, 0int,
{
    if is_function_kind(n.kind@) {
        Some((n, None))
    } else {
        find_fn_in(n, n.children@.len() as int)
    }
}

/// The search among the children `n.children[..i]`, from the last one down.
pub open spec fn find_fn_in(n: SyntaxNode, i: int) -> Option<FnLocation>
    decreases height(n), 0int, i,
{
    if i <= 0 || i > n.children@.len() {
        None
    } else {
        proof { lemma_child_lt(n, i - 1); }
        match find_fn(n.children@[i - 1]) {
            Some((f, None)) => Some((f, Some((n, i - 1)))),
            Some(loc) => Some(loc),
            None => find_fn_in(n, i - 1),
        }
    }
}

/// Whether every node of the tree spans a whole run of characters of `src`.
pub open spec fn spans_ok(n: SyntaxNode, src: Seq<u8>) -> bool
    decreases n,
{
    &&& source_text(src, n.start_byte as int, n.end_byte as int) is Some
    &&& forall|i: int| 0 <= i < n.children@.len() ==> spans_ok(#[trigger] n.children@[i], src)
}

/// The source text of a node (empty when its span is not a run of
/// characters).
pub open spec fn node_text(n: SyntaxNode, src: Seq<u8>) -> Seq<char> {
    match source_text(src, n.start_byte as int, n.end_byte as int) {
        Some(t) => t,
        None => seq![],
    }
}

/// The condition written in a `cfg` token tree: the trimmed text, without
/// its enclosing parentheses (trimmed again) when it has them.
pub open spec fn cfg_text(t: Seq<char>) -> Seq<char> {
    let tr = trim(t);
    if tr.len() > 0 && tr[0] == '(' && tr.last() == ')' {
        trim(tr.subrange(1, tr.len() - 1))
    } else {
        tr
    }
}

/// The condition of the first `cfg(...)` among the attributes `cs[i..]` of an
/// attribute item. An attribute without children ends the search with none.
pub open spec fn cfg_attr_from(cs: Seq<SyntaxNode>, i: int, src: Seq<u8>) -> Option<Seq<char>>
    decreases cs.len() - i,
{
    if i < 0 || i >= cs.len() {
        None
    } else if cs[i].kind@ != "attribute"@ {
        cfg_attr_from(cs, i + 1, src)
    } else if cs[i].children@.len() == 0 {
        None
    } else if cs[i].children@[0].kind@ != "identifier"@ || node_text(cs[i].children@[0], src) != "cfg"@ {
        cfg_attr_from(cs, i + 1, src)
    } else {
        match first_child_where(cs[i].children@, 0, kind_pred("token_tree"@)) {
            Some(t) => Some(cfg_text(node_text(cs[i].children@[t], src))),
            None => cfg_attr_from(cs, i + 1, src),
        }
    }
}

/// The nearest `cfg` condition among the attribute items that directly
/// precede position `j + 1` of `cs`, going back from `cs[j]` while the
/// siblings are attribute items.
pub open spec fn cfg_condition_before(cs: Seq<SyntaxNode>, j: int, src: Seq<u8>) -> Option<Seq<char>>
    decreases j + 1,
{
    if j < 0 || j >= cs.len() || cs[j].kind@ != "attribute_item"@ {
        None
    } else {
        match cfg_attr_from(cs[j].children@, 0, src) {
            Some(c) => Some(c),
            None => cfg_condition_before(cs, j - 1, src),
        }
    }
}

/// The `cfg` condition of the node at position `idx` of `parent`'s children.
pub open spec fn cfg_condition_of(parent: Option<(SyntaxNode, int)>, src: Seq<u8>) -> Option<Seq<char>> {
    match parent {
        Some((p, idx)) => cfg_condition_before(p.children@, idx - 1, src),
        None => None,
    }
}

/// The scope outside any loop.
pub open spec fn no_loop() -> LoopScope {
    LoopScope { header: None, exit: None }
}

/// Whether no edge leaves block 0.
pub open spec fn no_edge_from_entry(edges: Seq<CfgEdge>) -> bool {
    forall|e: int| 0 <= e < edges.len() ==> #[trigger] edges[e].source_idx != 0
}

/// The graph of function `f`: an entry block spanning the function, the
/// function body extracted from it, and a fall-through edge from the entry
/// to the first body block when nothing else leaves the entry.
pub open spec fn function_graph(f: SyntaxNode, fid: int, src: Seq<u8>) -> CfgState {
    let st0 = CfgState { blocks: seq![node_block(f, fid, "entry"@, "fallthrough"@)], edges: seq![], prev: Some(0) };
    match first_child_where(f.children@, 0, fn_body_pred()) {
        Some(j) => if 0 <= j < f.children@.len() {
            let st = cfg_node(f.children@[j], fid, src, st0, no_loop());
            if st.blocks.len() > 1 && no_edge_from_entry(st.edges) {
                push_edge(st, 0, 1, CfgEdgeType::Fallthrough)
            } else {
                st
            }
        } else {
            st0
        },
        None => st0,
    }
}

/// The blocks with the function's `cfg` condition, when it has one.
pub open spec fn with_condition(bs: Seq<BlockView>, cond: Option<Seq<char>>) -> Seq<BlockView> {
    match cond {
        Some(c) => bs.map_values(|b: BlockView| BlockView { cfg_condition: Some(c), ..b }),
        None => bs,
    }
}

} // verus!
