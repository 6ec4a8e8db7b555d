//! A plain-value syntax tree: what the analyses of this crate read from a
//! parser's tree (node kinds, names, spans, field labels and children).

use vstd::prelude::*;

verus! {

/// One node of a concrete syntax tree, with its children in source order.
#[derive(Debug)]
pub struct SyntaxNode {
    /// Grammar kind of the node (e.g. `if_expression`, `block`, `&&`).
    pub kind: String,
    /// Whether the grammar names this node (anonymous tokens are unnamed).
    pub named: bool,
    /// Field label of this node under its parent, if the grammar gives one.
    pub field: Option<String>,
    /// Byte offset of the first byte of the node.
    pub start_byte: usize,
    /// Byte offset one past the last byte of the node.
    pub end_byte: usize,
    /// Zero-based row of the node start.
    pub start_row: usize,
    /// Zero-based column of the node start.
    pub start_col: usize,
    /// Zero-based row of the node end.
    pub end_row: usize,
    /// Zero-based column of the node end.
    pub end_col: usize,
    /// Children in source order.
    pub children: Vec<SyntaxNode>,
}

/// The tree-sitter grammar handle, carried through opaque.
#[verifier::external_type_specification]
#[verifier::external_body]
pub struct ExLanguage(tree_sitter::Language);

/// A tree-sitter node, carried through opaque.
#[verifier::external_type_specification]
#[verifier::external_body]
pub struct ExNode<'tree>(tree_sitter::Node<'tree>);

/// Copies a parser node and its subtree into a `SyntaxNode`, field by field
/// (`Node::kind`, `is_named`, byte and point spans, and the children with
/// their field names through a `TreeCursor`). Trusted with no claim.
#[verifier::external_body]
fn syntax_node_from(node: &tree_sitter::Node, field: Option<&str>) -> SyntaxNode {
    let mut cursor = node.walk();
    let mut children = Vec::new();
    if cursor.goto_first_child() {
        loop {
            children.push(syntax_node_from(&cursor.node(), cursor.field_name()));
            if !cursor.goto_next_sibling() { break; }
        }
    }
    let (s, e) = (node.start_position(), node.end_position());
    SyntaxNode { kind: node.kind().to_string(), named: node.is_named(), field: field.map(|f| f.to_string()),
        start_byte: node.start_byte(), end_byte: node.end_byte(), start_row: s.row, start_col: s.column,
        end_row: e.row, end_col: e.column, children }
}

/// The tree that tree-sitter's parse of `source` with `language` gives, as
/// a `SyntaxNode`, or `None` where the language cannot be set or no tree
/// comes back. A parser with no timeout and no cancellation flag parses a
/// text with a grammar the same way every time.
pub uninterp spec fn parsed_tree(source: Seq<char>, language: tree_sitter::Language) -> Option<SyntaxNode>;

/// Parses `source` with tree-sitter (`Parser::set_language`, `Parser::parse`)
/// and returns the root of the tree as a `SyntaxNode`. `None` when the
/// language cannot be set or the parser gives no tree. Trusted: the result
/// is `parsed_tree` of the text and the language; nothing is stated of the
/// shape of the tree, which is tree-sitter's grammar-driven parse.
#[verifier::external_body]
pub(crate) fn parse_source(source: &str, language: &tree_sitter::Language) -> (r: Option<SyntaxNode>)
    ensures
        r == parsed_tree(source@, *language),
{
    let mut parser = tree_sitter::Parser::new();
    parser.set_language(language).ok()?;
    let tree = parser.parse(source, None)?;
    Some(syntax_node_from(&tree.root_node(), None))
}

} // verus!
