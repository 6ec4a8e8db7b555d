//! Executable tests and searches over syntax nodes that control-flow
//! extraction needs, each proved equal to its counterpart in `cfg_model`.

use vstd::prelude::*;
use vstd::utf8::*;
use vstd::string::StringSliceAdditionalSpecFns;
use crate::syntax::SyntaxNode;
use crate::text::{str_eq, chars_of, trim_bounds, trim};
use crate::cfg_model::{is_if_kind, is_loop_kind, is_switch_kind, is_block_kind, is_body_kind, is_else_kind,
    is_let_kind, is_assign_kind, is_binding_kind, spec_is_control_flow, spec_is_cfg_relevant, binding_block_kind,
    loop_block_kind, source_text, binary_operator, first_unnamed_from, first_child_where, kind_pred, body_pred,
    loop_body_pred, first_named_from, first_named_not, first_named_after_kind, first_with_field, else_body,
    arms_of, arms_here, arm_pred, case_pred, arm_guard};

verus! {

broadcast use vstd::string::group_string_axioms;

/// An index option seen as an integer option.
pub open spec fn as_opt_int(o: Option<usize>) -> Option<int> {
    match o {
        Some(v) => Some(v as int),
        None => None,
    }
}

pub fn is_if_kind_exec(k: &str) -> (r: bool)
    ensures
        r == is_if_kind(k@),
{
    str_eq(k, "if_expression") || str_eq(k, "if_statement")
}

pub fn is_loop_kind_exec(k: &str) -> (r: bool)
    ensures
        r == is_loop_kind(k@),
{
    str_eq(k, "loop_expression") || str_eq(k, "for_expression") || str_eq(k, "while_expression")
        || str_eq(k, "for_statement") || str_eq(k, "while_statement") || str_eq(k, "do_statement")
}

pub fn is_switch_kind_exec(k: &str) -> (r: bool)
    ensures
        r == is_switch_kind(k@),
{
    str_eq(k, "match_expression") || str_eq(k, "switch_statement") || str_eq(k, "expression_switch_statement")
        || str_eq(k, "type_switch_statement")
}

pub fn is_block_kind_exec(k: &str) -> (r: bool)
    ensures
        r == is_block_kind(k@),
{
    str_eq(k, "block") || str_eq(k, "statement_block")
}

pub fn is_body_kind_exec(k: &str) -> (r: bool)
    ensures
        r == is_body_kind(k@),
{
    str_eq(k, "block") || str_eq(k, "statement_block") || str_eq(k, "compound_statement")
}

pub fn is_else_kind_exec(k: &str) -> (r: bool)
    ensures
        r == is_else_kind(k@),
{
    str_eq(k, "else_clause") || str_eq(k, "else")
}

pub fn is_let_kind_exec(k: &str) -> (r: bool)
    ensures
        r == is_let_kind(k@),
{
    str_eq(k, "let_declaration") || str_eq(k, "let_statement")
}

pub fn is_assign_kind_exec(k: &str) -> (r: bool)
    ensures
        r == is_assign_kind(k@),
{
    str_eq(k, "assignment_expression") || str_eq(k, "assignment_statement")
}

pub fn is_binding_kind_exec(k: &str) -> (r: bool)
    ensures
        r == is_binding_kind(k@),
{
    str_eq(k, "let_declaration") || str_eq(k, "let_statement") || str_eq(k, "assignment_expression")
        || str_eq(k, "assignment_statement") || str_eq(k, "macro_invocation")
        || str_eq(k, "declaration_statement") || str_eq(k, "item")
}

/// Whether a node kind carries control flow of its own.
pub fn is_control_flow(k: &str) -> (r: bool)
    ensures
        r == spec_is_control_flow(k@),
{
    is_if_kind_exec(k) || str_eq(k, "match_expression") || str_eq(k, "match_statement")
        || str_eq(k, "switch_statement") || str_eq(k, "expression_switch_statement")
        || str_eq(k, "type_switch_statement") || str_eq(k, "loop_expression")
        || str_eq(k, "for_expression") || str_eq(k, "while_expression") || str_eq(k, "for_statement")
        || str_eq(k, "while_statement") || str_eq(k, "do_statement") || str_eq(k, "return_expression")
        || str_eq(k, "return_statement") || str_eq(k, "break_expression") || str_eq(k, "break_statement")
        || str_eq(k, "continue_expression") || str_eq(k, "continue_statement")
        || str_eq(k, "try_expression") || str_eq(k, "await_expression") || str_eq(k, "closure_expression")
}

/// Whether extraction visits a node of this kind inside a binding or a
/// statement: control flow, binary expressions and calls.
pub fn is_cfg_relevant_expression(k: &str) -> (r: bool)
    ensures
        r == spec_is_cfg_relevant(k@),
{
    is_control_flow(k) || str_eq(k, "binary_expression") || str_eq(k, "call_expression")
        || str_eq(k, "call_statement")
}

pub fn binding_block_kind_exec(k: &str) -> (r: &'static str)
    ensures
        r@ == binding_block_kind(k@),
{
    if is_let_kind_exec(k) {
        "let"
    } else if is_assign_kind_exec(k) {
        "assign"
    } else if str_eq(k, "macro_invocation") {
        "macro"
    } else {
        "stmt"
    }
}

pub fn loop_block_kind_exec(k: &str) -> (r: &'static str)
    ensures
        r@ == loop_block_kind(k@),
{
    if str_eq(k, "loop_expression") || str_eq(k, "for_statement") {
        "loop"
    } else if str_eq(k, "while_expression") || str_eq(k, "while_statement") {
        "while"
    } else if str_eq(k, "for_expression") {
        "for"
    } else if str_eq(k, "do_statement") {
        "do"
    } else {
        "loop"
    }
}

/// The text of the source bytes `[start, end)`, when they are a whole run of
/// characters of `src` (`str::get`).
pub fn source_slice<'a>(src: &'a str, start: usize, end: usize) -> (r: Option<&'a str>)
    ensures
        r is Some <==> source_text(src.spec_bytes(), start as int, end as int) is Some,
        r matches Some(t) ==> source_text(src.spec_bytes(), start as int, end as int) == Some(t@),
{
    let ghost bytes = src.spec_bytes();
    proof {
        encode_utf8_valid_utf8(src@);
    }
    let len = src.as_bytes().len();
    if start <= end && end <= len && src.is_char_boundary(start) && src.is_char_boundary(end) {
        let (_, rest) = src.split_at(start);
        proof {
            valid_utf8_split(bytes, start as int);
            let rb = bytes.subrange(start as int, bytes.len() as int);
            assert(rest.spec_bytes() == rb);
            let d = (end - start) as int;
            if d == rb.len() {
                is_char_boundary_start_end_of_seq(rb);
            } else {
                is_char_boundary_iff_not_is_continuation_byte(rb, d);
                is_char_boundary_iff_not_is_continuation_byte(bytes, end as int);
                assert(rb[d] == bytes[end as int]);
            }
        }
        let (mid, _) = rest.split_at(end - start);
        proof {
            assert(mid.spec_bytes() =~= bytes.subrange(start as int, end as int));
            encode_utf8_decode_utf8(mid@);
        }
        Some(mid)
    } else {
        None
    }
}

/// Which short-circuit operator a binary expression uses: 1 for `&&`, 2 for
/// `||`, 0 for any other (or none found).
pub fn short_circuit_op(n: &SyntaxNode, src: &str) -> (r: u8)
    ensures
        (r == 1) == (binary_operator(*n, src.spec_bytes()) == Some("&&"@)),
        (r == 2) == (binary_operator(*n, src.spec_bytes()) == Some("||"@)),
        r <= 2,
{
    proof {
        reveal_strlit("&&");
        reveal_strlit("||");
    }
    let cs = &n.children;
    let mut i: usize = 0;
    while i < cs.len() && cs[i].named
        invariant
            i <= cs@.len(),
            first_unnamed_from(cs@, 0) == first_unnamed_from(cs@, i as int),
        decreases cs@.len() - i,
    {
        i = i + 1;
    }
    if i >= cs.len() {
        return 0;
    }
    match source_slice(src, cs[i].start_byte, cs[i].end_byte) {
        None => 0,
        Some(t) => {
            let v = chars_of(t);
            let (a, b) = trim_bounds(&v, 0, v.len());
            proof {
                assert(v@.subrange(0, v@.len() as int) =~= t@);
            }
            let tr = Ghost(v@.subrange(a as int, b as int));
            assert(first_unnamed_from(cs@, i as int) == Some(i as int));
            assert(binary_operator(*n, src.spec_bytes()) == Some(tr@));
            if b - a == 2 && v[a] == '&' && v[a + 1] == '&' {
                assert(tr@ =~= "&&"@);
                1
            } else if b - a == 2 && v[a] == '|' && v[a + 1] == '|' {
                assert(tr@ =~= "||"@);
                assert(tr@[0] != "&&"@[0]);
                2
            } else {
                proof {
                    if tr@ == "&&"@ {
                        assert(tr@[0] == '&' && tr@[1] == '&');
                    }
                    if tr@ == "||"@ {
                        assert(tr@[0] == '|' && tr@[1] == '|');
                    }
                }
                0
            }
        },
    }
}

/// Index of the first child at or after `i` of kind `k`.
pub fn first_of_kind(cs: &Vec<SyntaxNode>, i: usize, k: &str) -> (r: Option<usize>)
    ensures
        as_opt_int(r) == first_child_where(cs@, i as int, kind_pred(k@)),
        r matches Some(j) ==> i <= j < cs@.len(),
{
    let mut j = i;
    while j < cs.len() && !str_eq(cs[j].kind.as_str(), k)
        invariant
            i <= j,
            first_child_where(cs@, i as int, kind_pred(k@)) == first_child_where(cs@, j as int, kind_pred(k@)),
        decreases cs@.len() - j,
    {
        j = j + 1;
    }
    if j < cs.len() { Some(j) } else { None }
}

/// Index of the first child at or after `i` that is a body block.
pub fn first_body(cs: &Vec<SyntaxNode>, i: usize) -> (r: Option<usize>)
    ensures
        as_opt_int(r) == first_child_where(cs@, i as int, body_pred()),
        r matches Some(j) ==> i <= j < cs@.len(),
{
    let mut j = i;
    while j < cs.len() && !is_body_kind_exec(cs[j].kind.as_str())
        invariant
            i <= j,
            first_child_where(cs@, i as int, body_pred()) == first_child_where(cs@, j as int, body_pred()),
        decreases cs@.len() - j,
    {
        j = j + 1;
    }
    if j < cs.len() { Some(j) } else { None }
}

/// Index of the first child at or after `i` that is a loop body block.
pub fn first_loop_body(cs: &Vec<SyntaxNode>, i: usize) -> (r: Option<usize>)
    ensures
        as_opt_int(r) == first_child_where(cs@, i as int, loop_body_pred()),
        r matches Some(j) ==> i <= j < cs@.len(),
{
    let mut j = i;
    while j < cs.len() && !is_block_kind_exec(cs[j].kind.as_str())
        invariant
            i <= j,
            first_child_where(cs@, i as int, loop_body_pred()) == first_child_where(cs@, j as int, loop_body_pred()),
        decreases cs@.len() - j,
    {
        j = j + 1;
    }
    if j < cs.len() { Some(j) } else { None }
}

/// Index of the first named child at or after `i`.
pub fn first_named(cs: &Vec<SyntaxNode>, i: usize) -> (r: Option<usize>)
    ensures
        as_opt_int(r) == first_named_from(cs@, i as int),
        r matches Some(j) ==> i <= j < cs@.len(),
{
    let mut j = i;
    while j < cs.len() && !cs[j].named
        invariant
            i <= j,
            first_named_from(cs@, i as int) == first_named_from(cs@, j as int),
        decreases cs@.len() - j,
    {
        j = j + 1;
    }
    if j < cs.len() { Some(j) } else { None }
}

/// Index of the first named child at or after `i` whose kind is not `k`.
pub fn first_named_other(cs: &Vec<SyntaxNode>, i: usize, k: &str) -> (r: Option<usize>)
    ensures
        as_opt_int(r) == first_named_not(cs@, i as int, k@),
        r matches Some(j) ==> i <= j < cs@.len(),
{
    let mut j = i;
    while j < cs.len() && !(!str_eq(cs[j].kind.as_str(), k) && cs[j].named)
        invariant
            i <= j,
            first_named_not(cs@, i as int, k@) == first_named_not(cs@, j as int, k@),
        decreases cs@.len() - j,
    {
        j = j + 1;
    }
    if j < cs.len() { Some(j) } else { None }
}

/// Index of the first named child, other than a `k` token, after the first
/// child of kind `k`.
pub fn named_after_kind(cs: &Vec<SyntaxNode>, k: &str) -> (r: Option<usize>)
    ensures
        as_opt_int(r) == first_named_after_kind(cs@, k@),
        r matches Some(j) ==> j < cs@.len(),
{
    match first_of_kind(cs, 0, k) {
        Some(j) => if j < cs.len() {
            first_named_other(cs, j + 1, k)
        } else {
            None
        },
        None => None,
    }
}

/// Index of the first child labelled with field `f`.
pub fn child_by_field(cs: &Vec<SyntaxNode>, f: &str) -> (r: Option<usize>)
    ensures
        as_opt_int(r) == first_with_field(cs@, 0, f@),
        r matches Some(j) ==> j < cs@.len(),
{
    let mut j: usize = 0;
    while j < cs.len()
        invariant
            j <= cs@.len(),
            first_with_field(cs@, 0, f@) == first_with_field(cs@, j as int, f@),
        decreases cs@.len() - j,
    {
        let hit = match &cs[j].field {
            Some(x) => str_eq(x.as_str(), f),
            None => false,
        };
        if hit {
            return Some(j);
        }
        j = j + 1;
    }
    None
}

/// The body of the else clause of an `if` among the children `cs`.
pub fn find_else_body(cs: &Vec<SyntaxNode>) -> (r: Option<(usize, usize)>)
    ensures
        match r {
            Some((i, j)) => else_body(cs@) == Some((i as int, j as int)),
            None => else_body(cs@) is None,
        },
        r matches Some((i, j)) ==> i < cs@.len() && j < cs@[i as int].children@.len(),
{
    let mut res: Option<(usize, usize)> = None;
    let mut i: usize = 0;
    while i < cs.len()
        invariant
            i <= cs@.len(),
            match res {
                Some((a, b)) => else_body(cs@.take(i as int)) == Some((a as int, b as int)),
                None => else_body(cs@.take(i as int)) is None,
            },
            res matches Some((a, b)) ==> a < cs@.len() && b < cs@[a as int].children@.len(),
        decreases cs@.len() - i,
    {
        assert(cs@.take(i + 1).drop_last() =~= cs@.take(i as int));
        assert(cs@.take(i + 1).last() == cs@[i as int]);
        if is_else_kind_exec(cs[i].kind.as_str()) {
            if let Some(j) = first_body(&cs[i].children, 0) {
                res = Some((i, j));
            }
        } else {
            let _ = first_body(&cs[i].children, 0);
        }
        i = i + 1;
    }
    assert(cs@.take(cs@.len() as int) =~= cs@);
    res
}

/// The arms of a match (or cases of a switch) `n`, in order.
pub fn collect_arms<'a>(n: &'a SyntaxNode) -> (v: Vec<&'a SyntaxNode>)
    ensures
        v@.len() == arms_of(n.children@).len(),
        forall|i: int| 0 <= i < v@.len() ==> *v@[i] == arms_of(n.children@)[i],
{
    let cs = &n.children;
    let mut v: Vec<&'a SyntaxNode> = Vec::new();
    let mut i: usize = 0;
    while i < cs.len()
        invariant
            i <= cs@.len(),
            cs == &n.children,
            v@.len() == arms_of(cs@.take(i as int)).len(),
            forall|a: int| 0 <= a < v@.len() ==> *v@[a] == arms_of(cs@.take(i as int))[a],
        decreases cs@.len() - i,
    {
        let c = &cs[i];
        let ghost before = v@;
        let ghost init = arms_of(cs@.take(i as int));
        assert(cs@.take(i + 1).drop_last() =~= cs@.take(i as int));
        assert(cs@.take(i + 1).last() == *c);
        let k = c.kind.as_str();
        if str_eq(k, "match_block") || str_eq(k, "match_body") || str_eq(k, "switch_body") || str_eq(k, "body") {
            let is_match = str_eq(k, "match_block") || str_eq(k, "match_body");
            let ghost p = if is_match { arm_pred() } else { case_pred() };
            assert(arms_here(*c) == c.children@.filter(p));
            let mut j: usize = 0;
            while j < c.children.len()
                invariant
                    j <= c.children@.len(),
                    v@.len() == init.len() + c.children@.take(j as int).filter(p).len(),
                    forall|a: int| 0 <= a < init.len() ==> *v@[a] == init[a],
                    forall|a: int| init.len() <= a < v@.len() ==> *v@[a] == c.children@.take(j as int).filter(p)[a - init.len()],
                    p == (if is_match { arm_pred() } else { case_pred() }),
                decreases c.children@.len() - j,
            {
                let g = &c.children[j];
                let gk = g.kind.as_str();
                let keep = if is_match { str_eq(gk, "match_arm") } else { str_eq(gk, "switch_case") || str_eq(gk, "case") };
                proof {
                    reveal(Seq::filter);
                    assert(c.children@.take(j + 1).drop_last() =~= c.children@.take(j as int));
                    assert(c.children@.take(j + 1).last() == *g);
                    assert(keep == p(*g));
                }
                if keep {
                    v.push(g);
                }
                j = j + 1;
            }
            assert(c.children@.take(c.children@.len() as int) =~= c.children@);
        } else if str_eq(k, "expression_case") || str_eq(k, "default_case") || str_eq(k, "type_case") {
            v.push(c);
        }
        proof {
            assert(arms_of(cs@.take(i + 1)) == init + arms_here(*c));
        }
        i = i + 1;
    }
    assert(cs@.take(cs@.len() as int) =~= cs@);
    v
}

/// The guard condition of a match arm, as the index of the guard inside the
/// arm's pattern.
pub fn find_arm_guard(a: &SyntaxNode) -> (r: Option<usize>)
    ensures
        as_opt_int(r) == arm_guard(*a),
        r matches Some(g) ==> a.children@.len() > 0 && g < a.children@[0].children@.len(),
{
    if a.children.len() > 0 && str_eq(a.children[0].kind.as_str(), "match_pattern") {
        let pat = &a.children[0];
        if first_of_kind(&pat.children, 0, "if").is_some() {
            named_after_kind(&pat.children, "if")
        } else {
            None
        }
    } else {
        None
    }
}

} // verus!
