//! Summaries of syntax trees: the structural nodes of a tree with their
//! spans and parent links, language-agnostic kind names, and language
//! detection from file extensions.

use vstd::prelude::*;
use crate::ast_node::{AstNode, is_structural_kind, spec_is_structural_kind, kinds};
use crate::syntax::SyntaxNode;
use crate::text::{str_eq, chars_of};

verus! {

/// A summarised node as plain values: kind, start, end and parent link.
pub type AstView = (Seq<char>, int, int, Option<int>);

/// The view of an `AstNode` (the database ID is not part of a summary).
pub open spec fn ast_view(n: AstNode) -> AstView {
    (n.kind@, n.byte_start as int, n.byte_end as int, match n.parent_id {
        Some(p) => Some(p as int),
        None => None,
    })
}

/// The parent link recorded for a node whose structural parent sits at
/// position `idx` of the summary: `-(idx) - 1`, marking it as not yet
/// resolved to a database ID.
/// A `usize` option seen as an integer option.
pub open spec fn opt_int(o: Option<usize>) -> Option<int> {
    match o {
        Some(v) => Some(v as int),
        None => None,
    }
}

pub open spec fn parent_link(parent: Option<int>) -> Option<int> {
    match parent {
        Some(idx) => Some(-idx - 1),
        None => None,
    }
}

/// The summary of a subtree, in pre-order. `parent` is the position of the
/// nearest structural ancestor in the summary, `base` the position the first
/// summarised node of this subtree will take. A structural node whose span
/// is not inside the source (or is reversed) is dropped with its subtree.
pub open spec fn summarize(n: SyntaxNode, parent: Option<int>, base: int, src_len: int) -> Seq<AstView>
    decreases n, 1int,
{
    if spec_is_structural_kind(n.kind@) {
        if n.end_byte > src_len || n.start_byte > n.end_byte {
            seq![]
        } else {
            seq![(n.kind@, n.start_byte as int, n.end_byte as int, parent_link(parent))]
                + summarize_children(n.children@, Some(base), base + 1, src_len)
        }
    } else {
        summarize_children(n.children@, parent, base, src_len)
    }
}

/// The summaries of a sequence of sibling subtrees, one after the other.
pub open spec fn summarize_children(cs: Seq<SyntaxNode>, parent: Option<int>, base: int, src_len: int) -> Seq<AstView>
    decreases cs, 0int,
{
    if cs.len() == 0 {
        seq![]
    } else {
        let first = summarize(cs[0], parent, base, src_len);
        first + summarize_children(cs.drop_first(), parent, base + first.len(), src_len)
    }
}


/// Appending one more sibling extends the summary of the siblings by the
/// summary of the new one, placed after the earlier ones.
pub proof fn lemma_summarize_children_push(cs: Seq<SyntaxNode>, x: SyntaxNode, parent: Option<int>, base: int, src_len: int)
    ensures
        summarize_children(cs.push(x), parent, base, src_len) == summarize_children(cs, parent, base, src_len)
            + summarize(x, parent, base + summarize_children(cs, parent, base, src_len).len(), src_len),
    decreases cs.len(),
{
    if cs.len() == 0 {
        assert(cs.push(x).drop_first() =~= Seq::<SyntaxNode>::empty());
        assert(summarize_children(Seq::<SyntaxNode>::empty(), parent, base + summarize(x, parent, base, src_len).len(), src_len) == Seq::<AstView>::empty());
        assert(summarize_children(cs.push(x), parent, base, src_len) =~= summarize(x, parent, base, src_len));
    } else {
        let first = summarize(cs[0], parent, base, src_len);
        assert(cs.push(x).drop_first() =~= cs.drop_first().push(x));
        assert(cs.push(x)[0] == cs[0]);
        lemma_summarize_children_push(cs.drop_first(), x, parent, base + first.len(), src_len);
        assert(summarize_children(cs.push(x), parent, base, src_len) =~= summarize_children(cs, parent, base, src_len)
            + summarize(x, parent, base + summarize_children(cs, parent, base, src_len).len(), src_len));
    }
}

/// The summary of a prefix of the siblings is no longer than that of all of them.
pub proof fn lemma_summarize_children_prefix_len(cs: Seq<SyntaxNode>, i: int, parent: Option<int>, base: int, src_len: int)
    requires
        0 <= i <= cs.len(),
    ensures
        summarize_children(cs.take(i), parent, base, src_len).len() <= summarize_children(cs, parent, base, src_len).len(),
    decreases cs.len(),
{
    if i > 0 {
        let first = summarize(cs[0], parent, base, src_len);
        assert(cs.take(i).drop_first() =~= cs.drop_first().take(i - 1));
        assert(cs.take(i)[0] == cs[0]);
        lemma_summarize_children_prefix_len(cs.drop_first(), i - 1, parent, base + first.len(), src_len);
    }
}

/// Summarises `node` into `nodes`, whose current length is the position of
/// the next summarised node.
fn summarize_into(node: &SyntaxNode, parent: Option<usize>, src_len: usize, nodes: &mut Vec<AstNode>)
    requires
        parent matches Some(p) ==> p < old(nodes)@.len(),
        old(nodes)@.len() + summarize(*node, opt_int(parent), old(nodes)@.len() as int, src_len as int).len() <= i64::MAX,
        forall|i: int| 0 <= i < old(nodes)@.len() ==> (#[trigger] old(nodes)@[i]).id is None,
    ensures
        forall|i: int| 0 <= i < final(nodes)@.len() ==> (#[trigger] final(nodes)@[i]).id is None,
        final(nodes)@.len() == old(nodes)@.len() + summarize(*node, opt_int(parent), old(nodes)@.len() as int, src_len as int).len(),
        final(nodes)@.map_values(|n: AstNode| ast_view(n)) == old(nodes)@.map_values(|n: AstNode| ast_view(n))
            + summarize(*node, opt_int(parent), old(nodes)@.len() as int, src_len as int),
    decreases node,
{
    let ghost start = nodes@.map_values(|n: AstNode| ast_view(n));
    let structural = is_structural_kind(node.kind.as_str());
    let child_parent: Option<usize>;
    if structural {
        if node.end_byte > src_len || node.start_byte > node.end_byte {
            assert(nodes@.map_values(|n: AstNode| ast_view(n)) =~= start + Seq::<AstView>::empty());
            return;
        }
        let link: Option<i64> = match parent {
            Some(p) => Some(-(p as i64) - 1),
            None => None,
        };
        let idx = nodes.len();
        nodes.push(AstNode { id: None, parent_id: link, kind: node.kind.clone(), byte_start: node.start_byte, byte_end: node.end_byte });
        assert(nodes@.map_values(|n: AstNode| ast_view(n)) =~= start + seq![(node.kind@, node.start_byte as int, node.end_byte as int, parent_link(opt_int(parent)))]);
        child_parent = Some(idx);
    } else {
        child_parent = parent;
    }
    let ghost base = nodes@.len() as int;
    let ghost before = nodes@.map_values(|n: AstNode| ast_view(n));
    let mut i: usize = 0;
    while i < node.children.len()
        invariant
            i <= node.children@.len(),
            nodes@.len() == base + summarize_children(node.children@.take(i as int), opt_int(child_parent), base, src_len as int).len(),
            child_parent matches Some(p) ==> p < nodes@.len(),
            forall|k: int| 0 <= k < nodes@.len() ==> (#[trigger] nodes@[k]).id is None,
            nodes@.map_values(|n: AstNode| ast_view(n)) == before
                + summarize_children(node.children@.take(i as int), opt_int(child_parent), base, src_len as int),
            base + summarize_children(node.children@, opt_int(child_parent), base, src_len as int).len() <= i64::MAX,
        decreases node.children@.len() - i,
    {
        proof {
            lemma_summarize_children_push(node.children@.take(i as int), node.children@[i as int], opt_int(child_parent), base, src_len as int);
            assert(node.children@.take(i as int).push(node.children@[i as int]) =~= node.children@.take(i + 1));
            lemma_summarize_children_prefix_len(node.children@, i as int + 1, opt_int(child_parent), base, src_len as int);
        }
        summarize_into(&node.children[i], child_parent, src_len, nodes);
        i = i + 1;
    }
    assert(node.children@.take(node.children@.len() as int) =~= node.children@);
    assert(nodes@.map_values(|n: AstNode| ast_view(n)).len() == nodes@.len());
}


/// The structural nodes of a tree, in pre-order, each with the position of
/// its nearest structural ancestor encoded as a pending parent link.
pub fn extract_ast_nodes(tree: &SyntaxNode, source: &[u8]) -> (r: Vec<AstNode>)
    requires
        summarize(*tree, None, 0, source@.len() as int).len() <= i64::MAX,
    ensures
        r@.map_values(|n: AstNode| ast_view(n)) == summarize(*tree, None, 0, source@.len() as int),
        forall|i: int| 0 <= i < r@.len() ==> (#[trigger] r@[i]).id is None,
{
    let mut nodes: Vec<AstNode> = Vec::new();
    summarize_into(tree, None, source.len(), &mut nodes);
    assert(nodes@.map_values(|n: AstNode| ast_view(n)) =~= summarize(*tree, None, 0, source@.len() as int));
    nodes
}

/// Language-agnostic name of a node kind; kinds without one are returned
/// unchanged.
pub open spec fn spec_normalize_node_kind(k: Seq<char>) -> Seq<char> {
    if k == "if_expression"@ || k == "if_statement"@ { "If"@ }
    else if k == "match_expression"@ || k == "match_statement"@ { "Match"@ }
    else if k == "while_expression"@ || k == "while_statement"@ { "While"@ }
    else if k == "for_expression"@ || k == "for_statement"@ { "For"@ }
    else if k == "loop_expression"@ { "Loop"@ }
    else if k == "return_expression"@ || k == "return_statement"@ { "Return"@ }
    else if k == "break_expression"@ || k == "break_statement"@ { "Break"@ }
    else if k == "continue_expression"@ || k == "continue_statement"@ { "Continue"@ }
    else if k == "function_item"@ || k == "function_definition"@ || k == "method_definition"@ { "Function"@ }
    else if k == "struct_item"@ || k == "struct_definition"@ { "Struct"@ }
    else if k == "enum_item"@ || k == "enum_definition"@ { "Enum"@ }
    else if k == "trait_item"@ || k == "trait_definition"@ { "Trait"@ }
    else if k == "impl_item"@ { "Impl"@ }
    else if k == "mod_item"@ { "Module"@ }
    else if k == "class_definition"@ { "Class"@ }
    else if k == "interface_definition"@ { "Interface"@ }
    else if k == "block"@ || k == "block_expression"@ || k == "statement_block"@ { "Block"@ }
    else if k == "let_statement"@ { "Let"@ }
    else if k == "expression_statement"@ { "Expression"@ }
    else if k == "assignment_expression"@ { "Assign"@ }
    else if k == "call_expression"@ { "Call"@ }
    else if k == "attribute_item"@ || k == "decorated_definition"@ { "Attribute"@ }
    else if k == "const_item"@ { "Const"@ }
    else if k == "static_item"@ { "Static"@ }
    else { k }
}

/// Maps a parser node kind (e.g. `if_expression`) to its language-agnostic
/// name (e.g. `If`); other kinds are returned as they are. The language does
/// not change the mapping.
pub fn normalize_node_kind<'a>(kind: &'a str, _language: &str) -> (r: &'a str)
    ensures
        r@ == spec_normalize_node_kind(kind@),
{
    if str_eq(kind, "if_expression") || str_eq(kind, "if_statement") { kinds::IF }
    else if str_eq(kind, "match_expression") || str_eq(kind, "match_statement") { kinds::MATCH }
    else if str_eq(kind, "while_expression") || str_eq(kind, "while_statement") { kinds::WHILE }
    else if str_eq(kind, "for_expression") || str_eq(kind, "for_statement") { kinds::FOR }
    else if str_eq(kind, "loop_expression") { kinds::LOOP }
    else if str_eq(kind, "return_expression") || str_eq(kind, "return_statement") { kinds::RETURN }
    else if str_eq(kind, "break_expression") || str_eq(kind, "break_statement") { kinds::BREAK }
    else if str_eq(kind, "continue_expression") || str_eq(kind, "continue_statement") { kinds::CONTINUE }
    else if str_eq(kind, "function_item") || str_eq(kind, "function_definition") || str_eq(kind, "method_definition") { kinds::FUNCTION }
    else if str_eq(kind, "struct_item") || str_eq(kind, "struct_definition") { kinds::STRUCT }
    else if str_eq(kind, "enum_item") || str_eq(kind, "enum_definition") { kinds::ENUM }
    else if str_eq(kind, "trait_item") || str_eq(kind, "trait_definition") { kinds::TRAIT }
    else if str_eq(kind, "impl_item") { kinds::IMPL }
    else if str_eq(kind, "mod_item") { kinds::MODULE }
    else if str_eq(kind, "class_definition") { kinds::CLASS }
    else if str_eq(kind, "interface_definition") { kinds::INTERFACE }
    else if str_eq(kind, "block") || str_eq(kind, "block_expression") || str_eq(kind, "statement_block") { kinds::BLOCK }
    else if str_eq(kind, "let_statement") { kinds::LET }
    else if str_eq(kind, "expression_statement") { "Expression" }
    else if str_eq(kind, "assignment_expression") { kinds::ASSIGN }
    else if str_eq(kind, "call_expression") { kinds::CALL }
    else if str_eq(kind, "attribute_item") || str_eq(kind, "decorated_definition") { kinds::ATTRIBUTE }
    else if str_eq(kind, "const_item") { kinds::CONST }
    else if str_eq(kind, "static_item") { kinds::STATIC }
    else { kind }
}

/// The text after the last `.` of a path (the whole path when it has none).
pub open spec fn spec_extension(p: Seq<char>) -> Seq<char> {
    if exists|i: int| 0 <= i < p.len() && p[i] == '.' {
        let i = choose|i: int| 0 <= i < p.len() && p[i] == '.' && forall|j: int| i < j < p.len() ==> p[j] != '.';
        p.subrange(i + 1, p.len() as int)
    } else {
        p
    }
}

/// Language of a file, from its extension.
pub open spec fn spec_language_of_extension(e: Seq<char>) -> Option<Seq<char>> {
    if e == "rs"@ { Some("rust"@) }
    else if e == "py"@ { Some("python"@) }
    else if e == "c"@ || e == "h"@ { Some("c"@) }
    else if e == "cpp"@ || e == "cc"@ || e == "cxx"@ || e == "hpp"@ || e == "hh"@ || e == "hxx"@ { Some("cpp"@) }
    else if e == "java"@ { Some("java"@) }
    else if e == "js"@ || e == "mjs"@ || e == "cjs"@ { Some("javascript"@) }
    else if e == "ts"@ { Some("typescript"@) }
    else if e == "tsx"@ { Some("tsx"@) }
    else { None }
}

/// Detects the programming language of a file from its extension.
pub fn language_from_path(path: &str) -> (r: Option<&'static str>)
    ensures
        match r {
            Some(l) => spec_language_of_extension(spec_extension(path@)) == Some(l@),
            None => spec_language_of_extension(spec_extension(path@)) is None,
        },
{
    let cs = chars_of(path);
    let mut i: usize = cs.len();
    while i > 0 && cs[i - 1] != '.'
        invariant
            i <= cs@.len(),
            cs@ == path@,
            forall|j: int| i <= j < cs@.len() ==> cs@[j] != '.',
        decreases i,
    {
        i = i - 1;
    }
    let found = i > 0;
    let ghost ext_spec = spec_extension(path@);
    let start: usize = if found { i } else { 0 };
    proof {
        if found {
            let k = (i - 1) as int;
            assert(path@[k] == '.');
            let c = choose|c: int| 0 <= c < path@.len() && path@[c] == '.' && forall|j: int| c < j < path@.len() ==> path@[j] != '.';
            if c < k { assert(path@[k] != '.'); }
            if c > k { assert(cs@[c] != '.'); }
            assert(c == k);
        } else {
            assert forall|j: int| 0 <= j < path@.len() implies path@[j] != '.' by {
                assert(cs@[j] != '.');
            }
        }
    }
    let ext = crate::text::string_from_range(cs.as_slice(), start, cs.len());
    assert(ext@ =~= ext_spec);
    let e = ext.as_str();
    if str_eq(e, "rs") { Some("rust") }
    else if str_eq(e, "py") { Some("python") }
    else if str_eq(e, "c") || str_eq(e, "h") { Some("c") }
    else if str_eq(e, "cpp") || str_eq(e, "cc") || str_eq(e, "cxx") || str_eq(e, "hpp") || str_eq(e, "hh") || str_eq(e, "hxx") { Some("cpp") }
    else if str_eq(e, "java") { Some("java") }
    else if str_eq(e, "js") || str_eq(e, "mjs") || str_eq(e, "cjs") { Some("javascript") }
    else if str_eq(e, "ts") { Some("typescript") }
    else if str_eq(e, "tsx") { Some("tsx") }
    else { None }
}

} // verus!
