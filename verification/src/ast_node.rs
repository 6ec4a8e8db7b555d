//! AST node records: positional summaries of the structural parts of a
//! syntax tree, with an optional parent link.

use vstd::prelude::*;
use crate::text::str_eq;

pub mod kinds;

verus! {

/// A structural syntax node with a half-open byte span `[byte_start, byte_end)`.
#[derive(Debug, Clone)]
pub struct AstNode {
    /// Database ID (`Some` once stored, `None` before).
    pub id: Option<i64>,
    /// Parent node ID (`None` for root-level nodes).
    pub parent_id: Option<i64>,
    /// Node kind, as the parser names it.
    pub kind: String,
    /// Byte offset of the node start.
    pub byte_start: usize,
    /// Byte offset one past the node end.
    pub byte_end: usize,
}

impl AstNode {
    /// A node not yet stored (no database ID).
    pub fn new(parent_id: Option<i64>, kind: &str, byte_start: usize, byte_end: usize) -> (r: Self)
        ensures
            r.id is None,
            r.parent_id == parent_id,
            r.kind@ == kind@,
            r.byte_start == byte_start,
            r.byte_end == byte_end,
    {
        AstNode { id: None, parent_id, kind: kind.to_string(), byte_start, byte_end }
    }

    /// The byte span as a pair.
    pub fn span(&self) -> (r: (usize, usize))
        ensures
            r == (self.byte_start, self.byte_end),
    {
        (self.byte_start, self.byte_end)
    }

    /// Whether `position` lies in the half-open span.
    pub fn contains(&self, position: usize) -> (r: bool)
        ensures
            r == (self.byte_start <= position && position < self.byte_end),
    {
        self.byte_start <= position && position < self.byte_end
    }

    /// Length of the span in bytes.
    pub fn len(&self) -> (r: usize)
        requires
            self.byte_start <= self.byte_end,
        ensures
            r == self.byte_end - self.byte_start,
    {
        self.byte_end - self.byte_start
    }

    /// Whether the span is empty.
    pub fn is_empty(&self) -> (r: bool)
        ensures
            r == (self.byte_end <= self.byte_start),
    {
        self.byte_end <= self.byte_start
    }
}

/// An AST node with an optional snippet of its source text.
#[derive(Debug, Clone)]
pub struct AstNodeWithText {
    /// The node itself.
    pub node: AstNode,
    /// Source text snippet, when it was read.
    pub text: Option<String>,
}

impl AstNodeWithText {
    /// Pairs a node with an optional text.
    pub fn from_node(node: AstNode, text: Option<String>) -> (r: Self)
        ensures
            r.node == node,
            r.text == text,
    {
        AstNodeWithText { node, text }
    }

    /// The text, or `placeholder` when there is none.
    pub fn text_or<'a>(&'a self, placeholder: &'a str) -> (r: &'a str)
        ensures
            r@ == (match self.text {
                Some(t) => t@,
                None => placeholder@,
            }),
    {
        match &self.text {
            Some(t) => t.as_str(),
            None => placeholder,
        }
    }
}

impl From<AstNode> for AstNodeWithText {
    fn from(node: AstNode) -> (r: Self) {
        AstNodeWithText { node, text: None }
    }
}

impl vstd::std_specs::convert::FromSpecImpl<AstNode> for AstNodeWithText {
    open spec fn obeys_from_spec() -> bool {
        true
    }

    open spec fn from_spec(node: AstNode) -> Self {
        AstNodeWithText { node, text: None }
    }
}

/// Whether a parser node kind is structural (kept when summarising a tree).
pub open spec fn spec_is_structural_kind(k: Seq<char>) -> bool {
    ||| k == "if_expression"@ ||| k == "match_expression"@ ||| k == "while_expression"@
    ||| k == "for_expression"@ ||| k == "loop_expression"@ ||| k == "return_expression"@
    ||| k == "break_expression"@ ||| k == "continue_expression"@
    ||| k == "if_statement"@ ||| k == "match_statement"@ ||| k == "while_statement"@
    ||| k == "for_statement"@ ||| k == "break_statement"@ ||| k == "continue_statement"@
    ||| k == "return_statement"@
    ||| k == "function_item"@ ||| k == "method_definition"@ ||| k == "struct_item"@
    ||| k == "enum_item"@ ||| k == "trait_item"@ ||| k == "impl_item"@ ||| k == "mod_item"@
    ||| k == "class_definition"@ ||| k == "interface_definition"@
    ||| k == "block"@ ||| k == "block_expression"@ ||| k == "statement_block"@
    ||| k == "let_statement"@ ||| k == "let_declaration"@ ||| k == "expression_statement"@
    ||| k == "assignment_expression"@ ||| k == "augmented_assignment_expression"@
    ||| k == "call_expression"@
    ||| k == "attribute_item"@ ||| k == "decorated_definition"@
    ||| k == "const_item"@ ||| k == "static_item"@
}

/// Whether a node kind is structural: control flow, definitions, blocks,
/// statements, calls, attributes and constants. Leaves such as identifiers
/// and literals are not.
pub fn is_structural_kind(kind: &str) -> (r: bool)
    ensures
        r == spec_is_structural_kind(kind@),
{
    str_eq(kind, "if_expression") || str_eq(kind, "match_expression") || str_eq(kind, "while_expression")
    || str_eq(kind, "for_expression") || str_eq(kind, "loop_expression") || str_eq(kind, "return_expression")
    || str_eq(kind, "break_expression") || str_eq(kind, "continue_expression")
    || str_eq(kind, "if_statement") || str_eq(kind, "match_statement") || str_eq(kind, "while_statement")
    || str_eq(kind, "for_statement") || str_eq(kind, "break_statement") || str_eq(kind, "continue_statement")
    || str_eq(kind, "return_statement")
    || str_eq(kind, "function_item") || str_eq(kind, "method_definition") || str_eq(kind, "struct_item")
    || str_eq(kind, "enum_item") || str_eq(kind, "trait_item") || str_eq(kind, "impl_item") || str_eq(kind, "mod_item")
    || str_eq(kind, "class_definition") || str_eq(kind, "interface_definition")
    || str_eq(kind, "block") || str_eq(kind, "block_expression") || str_eq(kind, "statement_block")
    || str_eq(kind, "let_statement") || str_eq(kind, "let_declaration") || str_eq(kind, "expression_statement")
    || str_eq(kind, "assignment_expression") || str_eq(kind, "augmented_assignment_expression")
    || str_eq(kind, "call_expression")
    || str_eq(kind, "attribute_item") || str_eq(kind, "decorated_definition")
    || str_eq(kind, "const_item") || str_eq(kind, "static_item")
}

} // verus!
