//! Block-level control-flow summary of a Rust function: one block for the
//! body and for each nested branch, loop body and match arm, and one for
//! each `return`, `break` and `continue`, with the way each block ends.

use vstd::prelude::*;
use crate::syntax::SyntaxNode;
use crate::text::str_eq;
use crate::cfg_model::{CfgBlock, BlockView, block_views, height, heights, positions_fit, node_block,
    lemma_child_lt, lemma_heights_bound, first_child_where, kind_pred};
use crate::cfg_scan::{first_of_kind, as_opt_int};

verus! {

/// Kind of a block.
#[derive(Debug, Clone, Copy, PartialEq, Eq, Structural)]
pub enum BlockKind {
    /// Function entry block.
    Entry,
    /// Block of an `if` branch.
    If,
    /// Block of an `else` branch.
    Else,
    /// Body of `loop`.
    Loop,
    /// Body of `while`.
    While,
    /// Body of `for`.
    For,
    /// Block of a match arm.
    MatchArm,
    /// Block after a match.
    MatchMerge,
    /// `return`.
    Return,
    /// `break`.
    Break,
    /// `continue`.
    Continue,
    /// Plain sequential block.
    Block,
}

/// The name a block kind is stored under.
pub open spec fn block_kind_name(k: BlockKind) -> Seq<char> {
    match k {
        BlockKind::Entry => "entry"@,
        BlockKind::If => "if"@,
        BlockKind::Else => "else"@,
        BlockKind::Loop => "loop"@,
        BlockKind::While => "while"@,
        BlockKind::For => "for"@,
        BlockKind::MatchArm => "match_arm"@,
        BlockKind::MatchMerge => "match_merge"@,
        BlockKind::Return => "return"@,
        BlockKind::Break => "break"@,
        BlockKind::Continue => "continue"@,
        BlockKind::Block => "block"@,
    }
}

impl BlockKind {
    /// The name the block kind is stored under.
    pub fn as_str(&self) -> (r: &'static str)
        ensures
            r@ == block_kind_name(*self),
    {
        match self {
            BlockKind::Entry => "entry",
            BlockKind::If => "if",
            BlockKind::Else => "else",
            BlockKind::Loop => "loop",
            BlockKind::While => "while",
            BlockKind::For => "for",
            BlockKind::MatchArm => "match_arm",
            BlockKind::MatchMerge => "match_merge",
            BlockKind::Return => "return",
            BlockKind::Break => "break",
            BlockKind::Continue => "continue",
            BlockKind::Block => "block",
        }
    }
}

/// How a block ends.
#[derive(Debug, Clone, Copy, PartialEq, Eq, Structural)]
pub enum TerminatorKind {
    /// Falls through to the next block.
    Fallthrough,
    /// Branches on a condition.
    Conditional,
    /// Jumps unconditionally.
    Goto,
    /// Returns from the function.
    Return,
    /// Leaves a loop.
    Break,
    /// Starts the next loop iteration.
    Continue,
    /// Calls a function.
    Call,
    /// Panics.
    Panic,
}

/// The name a terminator kind is stored under.
pub open spec fn terminator_name(t: TerminatorKind) -> Seq<char> {
    match t {
        TerminatorKind::Fallthrough => "fallthrough"@,
        TerminatorKind::Conditional => "conditional"@,
        TerminatorKind::Goto => "goto"@,
        TerminatorKind::Return => "return"@,
        TerminatorKind::Break => "break"@,
        TerminatorKind::Continue => "continue"@,
        TerminatorKind::Call => "call"@,
        TerminatorKind::Panic => "panic"@,
    }
}

impl TerminatorKind {
    /// The name the terminator kind is stored under.
    pub fn as_str(&self) -> (r: &'static str)
        ensures
            r@ == terminator_name(*self),
    {
        match self {
            TerminatorKind::Fallthrough => "fallthrough",
            TerminatorKind::Conditional => "conditional",
            TerminatorKind::Goto => "goto",
            TerminatorKind::Return => "return",
            TerminatorKind::Break => "break",
            TerminatorKind::Continue => "continue",
            TerminatorKind::Call => "call",
            TerminatorKind::Panic => "panic",
        }
    }
}

/// How a block ends, read from the kind of its last child.
pub open spec fn block_terminator(n: SyntaxNode) -> TerminatorKind {
    if n.children@.len() == 0 {
        TerminatorKind::Fallthrough
    } else {
        let k = n.children@.last().kind@;
        if k == "return_expression"@ {
            TerminatorKind::Return
        } else if k == "break_expression"@ {
            TerminatorKind::Break
        } else if k == "continue_expression"@ {
            TerminatorKind::Continue
        } else if k == "if_expression"@ || k == "match_expression"@ || k == "loop_expression"@
            || k == "while_expression"@ || k == "for_expression"@ {
            TerminatorKind::Conditional
        } else if k == "call_expression"@ {
            TerminatorKind::Call
        } else {
            TerminatorKind::Fallthrough
        }
    }
}

/// The block for node `n` of the given kind and terminator.
pub open spec fn summary_block(n: SyntaxNode, fid: int, kind: BlockKind, term: TerminatorKind) -> BlockView {
    node_block(n, fid, block_kind_name(kind), terminator_name(term))
}

/// The blocks after visiting block `n` of kind `kind`: the block itself,
/// then what its children hold.
pub open spec fn visit_block(n: SyntaxNode, fid: int, kind: BlockKind, acc: Seq<BlockView>) -> Seq<BlockView>
    decreases height(n), 2int, 0int,
{
    proof { assert(heights(n.children@) < height(n)); }
    visit_flow_seq(n.children@, fid, acc.push(summary_block(n, fid, kind, block_terminator(n))))
}

/// The blocks after visiting siblings `cs` for control flow, in order.
pub open spec fn visit_flow_seq(cs: Seq<SyntaxNode>, fid: int, acc: Seq<BlockView>) -> Seq<BlockView>
    decreases heights(cs), 4int, cs.len(),
{
    if cs.len() == 0 {
        acc
    } else {
        proof { lemma_heights_bound(cs, 0); }
        visit_flow_seq(cs.drop_first(), fid, visit_flow(cs[0], fid, acc))
    }
}

/// The blocks after visiting node `n` for control flow.
pub open spec fn visit_flow(n: SyntaxNode, fid: int, acc: Seq<BlockView>) -> Seq<BlockView>
    decreases height(n), 3int, 0int,
{
    let k = n.kind@;
    if k == "if_expression"@ {
        visit_if(n, fid, acc)
    } else if k == "loop_expression"@ {
        visit_child_blocks(n, 0, fid, BlockKind::Loop, acc)
    } else if k == "while_expression"@ {
        visit_child_blocks(n, 0, fid, BlockKind::While, acc)
    } else if k == "for_expression"@ {
        visit_child_blocks(n, 0, fid, BlockKind::For, acc)
    } else if k == "match_expression"@ {
        visit_match(n, 0, fid, acc)
    } else if k == "return_expression"@ {
        acc.push(summary_block(n, fid, BlockKind::Return, TerminatorKind::Return))
    } else if k == "break_expression"@ {
        acc.push(summary_block(n, fid, BlockKind::Break, TerminatorKind::Break))
    } else if k == "continue_expression"@ {
        acc.push(summary_block(n, fid, BlockKind::Continue, TerminatorKind::Continue))
    } else if k == "block"@ || k == "expression_statement"@ {
        proof { assert(heights(n.children@) < height(n)); }
        visit_flow_seq(n.children@, fid, acc)
    } else {
        acc
    }
}

/// The `block` children of `n` from position `i` on, each visited as a
/// block of kind `kind`.
pub open spec fn visit_child_blocks(n: SyntaxNode, i: int, fid: int, kind: BlockKind, acc: Seq<BlockView>) -> Seq<BlockView>
    decreases height(n), 1int, n.children@.len() - i,
{
    if i < 0 || i >= n.children@.len() {
        acc
    } else {
        proof { lemma_child_lt(n, i); }
        let c = n.children@[i];
        let acc1 = if c.kind@ == "block"@ { visit_block(c, fid, kind, acc) } else { acc };
        visit_child_blocks(n, i + 1, fid, kind, acc1)
    }
}

/// `if`: the consequence (third child) as an `if` block or a nested `if`,
/// then the alternative (fourth child) when it is an else clause.
pub open spec fn visit_if(n: SyntaxNode, fid: int, acc: Seq<BlockView>) -> Seq<BlockView>
    decreases height(n), 2int, 0int,
{
    let cs = n.children@;
    let acc1 = if cs.len() > 2 {
        proof { lemma_child_lt(n, 2); }
        if cs[2].kind@ == "block"@ {
            visit_block(cs[2], fid, BlockKind::If, acc)
        } else if cs[2].kind@ == "if_expression"@ {
            visit_if(cs[2], fid, acc)
        } else {
            acc
        }
    } else {
        acc
    };
    if cs.len() > 3 && cs[3].kind@ == "else_clause"@ {
        proof { lemma_child_lt(n, 3); }
        visit_else(cs[3], 0, fid, acc1)
    } else {
        acc1
    }
}

/// The children of an else clause from position `i` on: blocks as `else`
/// blocks, `if` expressions as nested ifs.
pub open spec fn visit_else(e: SyntaxNode, i: int, fid: int, acc: Seq<BlockView>) -> Seq<BlockView>
    decreases height(e), 1int, e.children@.len() - i,
{
    if i < 0 || i >= e.children@.len() {
        acc
    } else {
        proof { lemma_child_lt(e, i); }
        let c = e.children@[i];
        let acc1 = if c.kind@ == "block"@ {
            visit_block(c, fid, BlockKind::Else, acc)
        } else if c.kind@ == "if_expression"@ {
            visit_if(c, fid, acc)
        } else {
            acc
        };
        visit_else(e, i + 1, fid, acc1)
    }
}

/// `match`: the match arms inside each `match_block` child from position `i`
/// on, each arm's block children as `match_arm` blocks.
pub open spec fn visit_match(n: SyntaxNode, i: int, fid: int, acc: Seq<BlockView>) -> Seq<BlockView>
    decreases height(n), 1int, n.children@.len() - i,
{
    if i < 0 || i >= n.children@.len() {
        acc
    } else {
        proof { lemma_child_lt(n, i); }
        let c = n.children@[i];
        let acc1 = if c.kind@ == "match_block"@ { visit_arms(c, 0, fid, acc) } else { acc };
        visit_match(n, i + 1, fid, acc1)
    }
}

/// The `match_arm` children of a match block from position `j` on.
pub open spec fn visit_arms(mb: SyntaxNode, j: int, fid: int, acc: Seq<BlockView>) -> Seq<BlockView>
    decreases height(mb), 1int, mb.children@.len() - j,
{
    if j < 0 || j >= mb.children@.len() {
        acc
    } else {
        proof { lemma_child_lt(mb, j); }
        let a = mb.children@[j];
        let acc1 = if a.kind@ == "match_arm"@ { visit_child_blocks(a, 0, fid, BlockKind::MatchArm, acc) } else { acc };
        visit_arms(mb, j + 1, fid, acc1)
    }
}

/// The blocks of a function: its body (first `block` child) visited as the
/// entry block; none when it has no body.
pub open spec fn function_summary(func: SyntaxNode, fid: int) -> Seq<BlockView> {
    match first_child_where(func.children@, 0, kind_pred("block"@)) {
        Some(j) => if 0 <= j < func.children@.len() {
            visit_block(func.children@[j], fid, BlockKind::Entry, seq![])
        } else {
            seq![]
        },
        None => seq![],
    }
}

/// Walks a function's syntax tree and collects its blocks.
pub struct CfgExtractor<'a> {
    source: &'a [u8],
    next_block_id: usize,
    blocks: Vec<CfgBlock>,
}

impl<'a> CfgExtractor<'a> {
    /// The blocks collected and not yet handed out.
    pub closed spec fn pending(&self) -> Seq<BlockView> {
        block_views(self.blocks@)
    }

    /// An extractor over the source bytes of a file.
    pub fn new(source: &'a [u8]) -> (r: Self)
        ensures
            r.pending().len() == 0,
    {
        CfgExtractor { source, next_block_id: 0, blocks: Vec::new() }
    }

    /// The blocks of function `func_node` (see `function_summary`).
    pub fn extract_cfg_from_function(&mut self, func_node: &SyntaxNode, function_id: i64) -> (r: Vec<CfgBlock>)
        requires
            positions_fit(*func_node),
        ensures
            block_views(r@) == function_summary(*func_node, function_id as int),
            final(self).pending().len() == 0,
    {
        self.blocks = Vec::new();
        self.next_block_id = 0;
        assert(block_views(self.blocks@) =~= Seq::<BlockView>::empty());
        if let Some(j) = first_of_kind(&func_node.children, 0, "block") {
            assert(positions_fit(func_node.children@[j as int]));
            self.next_block_id = 1;
            self.visit_block(&func_node.children[j], function_id, BlockKind::Entry);
        }
        let mut out: Vec<CfgBlock> = Vec::new();
        std::mem::swap(&mut out, &mut self.blocks);
        assert(block_views(self.blocks@) =~= Seq::<BlockView>::empty());
        out
    }

    fn push_block(&mut self, n: &SyntaxNode, function_id: i64, kind: BlockKind, term: TerminatorKind)
        requires
            n.start_row < u64::MAX,
            n.end_row < u64::MAX,
        ensures
            block_views(final(self).blocks@) =~= block_views(old(self).blocks@).push(summary_block(*n, function_id as int, kind, term)),
    {
        let b = CfgBlock {
            function_id,
            kind: kind.as_str().to_owned(),
            terminator: term.as_str().to_owned(),
            byte_start: n.start_byte as u64,
            byte_end: n.end_byte as u64,
            start_line: n.start_row as u64 + 1,
            start_col: n.start_col as u64,
            end_line: n.end_row as u64 + 1,
            end_col: n.end_col as u64,
            cfg_hash: None,
            statements: None,
            cfg_condition: None,
        };
        let ghost bv = b@;
        self.blocks.push(b);
        assert(block_views(self.blocks@) =~= block_views(old(self).blocks@).push(bv));
    }

    fn visit_block(&mut self, n: &SyntaxNode, function_id: i64, kind: BlockKind)
        requires
            positions_fit(*n),
        ensures
            block_views(final(self).blocks@) == visit_block(*n, function_id as int, kind, block_views(old(self).blocks@)),
        decreases height(*n), 2int, 0int,
    {
        let term = self.detect_block_terminator(n);
        self.push_block(n, function_id, kind, term);
        let ghost acc0 = block_views(self.blocks@);
        let mut i: usize = 0;
        assert(n.children@.skip(0) =~= n.children@);
        while i < n.children.len()
            invariant
                i <= n.children@.len(),
                positions_fit(*n),
                visit_flow_seq(n.children@.skip(i as int), function_id as int, block_views(self.blocks@))
                    == visit_flow_seq(n.children@, function_id as int, acc0),
            decreases n.children@.len() - i,
        {
            proof {
                lemma_child_lt(*n, i as int);
                assert(n.children@.skip(i as int).drop_first() =~= n.children@.skip(i + 1));
            }
            self.visit_control_flow(&n.children[i], function_id);
            i = i + 1;
        }
        assert(n.children@.skip(i as int) =~= Seq::<SyntaxNode>::empty());
    }

    fn visit_control_flow(&mut self, n: &SyntaxNode, function_id: i64)
        requires
            positions_fit(*n),
        ensures
            block_views(final(self).blocks@) == visit_flow(*n, function_id as int, block_views(old(self).blocks@)),
        decreases height(*n), 3int, 0int,
    {
        let k = n.kind.as_str();
        if str_eq(k, "if_expression") {
            self.visit_if(n, function_id);
        } else if str_eq(k, "loop_expression") {
            self.visit_loop(n, function_id, BlockKind::Loop);
        } else if str_eq(k, "while_expression") {
            self.visit_loop(n, function_id, BlockKind::While);
        } else if str_eq(k, "for_expression") {
            self.visit_loop(n, function_id, BlockKind::For);
        } else if str_eq(k, "match_expression") {
            self.visit_match(n, function_id);
        } else if str_eq(k, "return_expression") {
            self.push_block(n, function_id, BlockKind::Return, TerminatorKind::Return);
        } else if str_eq(k, "break_expression") {
            self.push_block(n, function_id, BlockKind::Break, TerminatorKind::Break);
        } else if str_eq(k, "continue_expression") {
            self.push_block(n, function_id, BlockKind::Continue, TerminatorKind::Continue);
        } else if str_eq(k, "block") || str_eq(k, "expression_statement") {
            let ghost acc0 = block_views(self.blocks@);
            let mut i: usize = 0;
            assert(n.children@.skip(0) =~= n.children@);
            while i < n.children.len()
                invariant
                    i <= n.children@.len(),
                    positions_fit(*n),
                    visit_flow_seq(n.children@.skip(i as int), function_id as int, block_views(self.blocks@))
                        == visit_flow_seq(n.children@, function_id as int, acc0),
                decreases n.children@.len() - i,
            {
                proof {
                    lemma_child_lt(*n, i as int);
                    assert(n.children@.skip(i as int).drop_first() =~= n.children@.skip(i + 1));
                }
                self.visit_control_flow(&n.children[i], function_id);
                i = i + 1;
            }
            assert(n.children@.skip(i as int) =~= Seq::<SyntaxNode>::empty());
        }
    }

    /// The `block` children of `n`, each visited as a block of kind `kind`.
    fn visit_child_blocks(&mut self, n: &SyntaxNode, function_id: i64, kind: BlockKind)
        requires
            positions_fit(*n),
        ensures
            block_views(final(self).blocks@) == visit_child_blocks(*n, 0, function_id as int, kind, block_views(old(self).blocks@)),
        decreases height(*n), 1int, 0int,
    {
        let ghost acc0 = block_views(self.blocks@);
        let mut i: usize = 0;
        while i < n.children.len()
            invariant
                i <= n.children@.len(),
                positions_fit(*n),
                visit_child_blocks(*n, i as int, function_id as int, kind, block_views(self.blocks@))
                    == visit_child_blocks(*n, 0, function_id as int, kind, acc0),
            decreases n.children@.len() - i,
        {
            proof { lemma_child_lt(*n, i as int); }
            if str_eq(n.children[i].kind.as_str(), "block") {
                self.visit_block(&n.children[i], function_id, kind);
            }
            i = i + 1;
        }
    }

    fn visit_loop(&mut self, n: &SyntaxNode, function_id: i64, kind: BlockKind)
        requires
            positions_fit(*n),
        ensures
            block_views(final(self).blocks@) == visit_child_blocks(*n, 0, function_id as int, kind, block_views(old(self).blocks@)),
        decreases height(*n), 2int, 0int,
    {
        self.visit_child_blocks(n, function_id, kind);
    }

    fn visit_if(&mut self, n: &SyntaxNode, function_id: i64)
        requires
            positions_fit(*n),
        ensures
            block_views(final(self).blocks@) == visit_if(*n, function_id as int, block_views(old(self).blocks@)),
        decreases height(*n), 2int, 0int,
    {
        let cs = &n.children;
        if cs.len() > 2 {
            proof { lemma_child_lt(*n, 2); }
            if str_eq(cs[2].kind.as_str(), "block") {
                self.visit_block(&cs[2], function_id, BlockKind::If);
            } else if str_eq(cs[2].kind.as_str(), "if_expression") {
                self.visit_if(&cs[2], function_id);
            }
        }
        if cs.len() > 3 && str_eq(cs[3].kind.as_str(), "else_clause") {
            proof { lemma_child_lt(*n, 3); }
            let e = &cs[3];
            let ghost acc0 = block_views(self.blocks@);
            let mut i: usize = 0;
            while i < e.children.len()
                invariant
                    i <= e.children@.len(),
                    positions_fit(*e),
                    height(*e) < height(*n),
                    visit_else(*e, i as int, function_id as int, block_views(self.blocks@))
                        == visit_else(*e, 0, function_id as int, acc0),
                decreases e.children@.len() - i,
            {
                proof { lemma_child_lt(*e, i as int); }
                let c = &e.children[i];
                if str_eq(c.kind.as_str(), "block") {
                    self.visit_block(c, function_id, BlockKind::Else);
                } else if str_eq(c.kind.as_str(), "if_expression") {
                    self.visit_if(c, function_id);
                }
                i = i + 1;
            }
        }
    }

    fn visit_match(&mut self, n: &SyntaxNode, function_id: i64)
        requires
            positions_fit(*n),
        ensures
            block_views(final(self).blocks@) == visit_match(*n, 0, function_id as int, block_views(old(self).blocks@)),
        decreases height(*n), 2int, 0int,
    {
        let ghost acc0 = block_views(self.blocks@);
        let mut i: usize = 0;
        while i < n.children.len()
            invariant
                i <= n.children@.len(),
                positions_fit(*n),
                visit_match(*n, i as int, function_id as int, block_views(self.blocks@))
                    == visit_match(*n, 0, function_id as int, acc0),
            decreases n.children@.len() - i,
        {
            proof { lemma_child_lt(*n, i as int); }
            let mb = &n.children[i];
            if str_eq(mb.kind.as_str(), "match_block") {
                let ghost acc1 = block_views(self.blocks@);
                let mut j: usize = 0;
                while j < mb.children.len()
                    invariant
                        j <= mb.children@.len(),
                        positions_fit(*mb),
                        height(*mb) < height(*n),
                        visit_arms(*mb, j as int, function_id as int, block_views(self.blocks@))
                            == visit_arms(*mb, 0, function_id as int, acc1),
                    decreases mb.children@.len() - j,
                {
                    proof { lemma_child_lt(*mb, j as int); }
                    if str_eq(mb.children[j].kind.as_str(), "match_arm") {
                        self.visit_child_blocks(&mb.children[j], function_id, BlockKind::MatchArm);
                    }
                    j = j + 1;
                }
            }
            i = i + 1;
        }
    }

    /// How block `n` ends (see `block_terminator`).
    fn detect_block_terminator(&self, n: &SyntaxNode) -> (r: TerminatorKind)
        ensures
            r == block_terminator(*n),
    {
        let len = n.children.len();
        if len == 0 {
            return TerminatorKind::Fallthrough;
        }
        let k = n.children[len - 1].kind.as_str();
        if str_eq(k, "return_expression") {
            TerminatorKind::Return
        } else if str_eq(k, "break_expression") {
            TerminatorKind::Break
        } else if str_eq(k, "continue_expression") {
            TerminatorKind::Continue
        } else if str_eq(k, "if_expression") || str_eq(k, "match_expression") || str_eq(k, "loop_expression")
            || str_eq(k, "while_expression") || str_eq(k, "for_expression") {
            TerminatorKind::Conditional
        } else if str_eq(k, "call_expression") {
            TerminatorKind::Call
        } else {
            TerminatorKind::Fallthrough
        }
    }
}

} // verus!
