//! Decisions taken when control-flow blocks are stored and read back:
//! the content hash a block is stored under, the edge type a stored name
//! stands for, and which `#[cfg(...)]` conditions hold for a set of active
//! features.

use vstd::prelude::*;
use std::collections::HashSet;
use crate::text::{chars_of, trim_bounds, trim, index_of, find_char, range_eq, string_from_range,
    lemma_index_of, str_eq};
use crate::cfg_model::{CfgBlock, CfgEdgeType, opt_text, edge_type_name};

verus! {

broadcast use vstd::string::group_string_axioms;

/// Whether `features` holds a feature named `name`.
pub open spec fn has_feature(features: Set<String>, name: Seq<char>) -> bool {
    exists|f: String| features.contains(f) && f@ == name
}

/// Whether `features` holds `name` (`HashSet::contains`). Trusted: std
/// compares `String`s by their text.
#[verifier::external_body]
fn feature_active(features: &HashSet<String>, name: &str) -> (r: bool)
    ensures
        r == has_feature(features@, name@),
{
    features.contains(name)
}

/// Whether `c` holds `pre` then something, then `suf` at its end.
pub open spec fn wrapped(c: Seq<char>, pre: Seq<char>, suf: Seq<char>) -> bool {
    pre.len() + suf.len() <= c.len() && c.subrange(0, pre.len() as int) == pre
        && c.subrange(c.len() - suf.len(), c.len() as int) == suf
}

/// What lies between `pre` and `suf` in `c`.
pub open spec fn inner(c: Seq<char>, pre: Seq<char>, suf: Seq<char>) -> Seq<char> {
    c.subrange(pre.len() as int, c.len() - suf.len())
}

/// The value of a cfg condition for the active `features`:
/// `feature = "x"` holds when `x` is active, `all(...)` when every
/// comma-separated part holds, `any(...)` when some part does, `not(c)` when
/// `c` does not. Anything else holds.
pub open spec fn cfg_holds(cond: Seq<char>, features: Set<String>) -> bool
    decreases cond.len(), 0int,
{
    let c = trim(cond);
    proof {
        crate::text::lemma_trim_len(cond);
        reveal_strlit("all(");
        reveal_strlit("any(");
        reveal_strlit("not(");
        reveal_strlit(")");
    }
    if wrapped(c, "feature = \""@, "\""@) {
        has_feature(features, inner(c, "feature = \""@, "\""@))
    } else if wrapped(c, "all("@, ")"@) {
        all_parts_hold(inner(c, "all("@, ")"@), 0, features)
    } else if wrapped(c, "any("@, ")"@) {
        any_part_holds(inner(c, "any("@, ")"@), 0, features)
    } else if wrapped(c, "not("@, ")"@) {
        !cfg_holds(inner(c, "not("@, ")"@), features)
    } else {
        true
    }
}

/// End of the comma-separated part of `s` that starts at `start`.
pub open spec fn part_end(s: Seq<char>, start: int) -> int {
    match index_of(s, ',', start) {
        Some(e) => e,
        None => s.len() as int,
    }
}

/// Whether every comma-separated part of `s` from `start` on holds.
pub open spec fn all_parts_hold(s: Seq<char>, start: int, features: Set<String>) -> bool
    decreases s.len(), s.len() - start + 1,
{
    if start < 0 || start > s.len() {
        true
    } else {
        let e = part_end(s, start);
        if start <= e <= s.len() {
            let here = cfg_holds(s.subrange(start, e), features);
            here && (if e < s.len() { all_parts_hold(s, e + 1, features) } else { true })
        } else {
            true
        }
    }
}

/// Whether some comma-separated part of `s` from `start` on holds.
pub open spec fn any_part_holds(s: Seq<char>, start: int, features: Set<String>) -> bool
    decreases s.len(), s.len() - start + 1,
{
    if start < 0 || start > s.len() {
        false
    } else {
        let e = part_end(s, start);
        if start <= e <= s.len() {
            let here = cfg_holds(s.subrange(start, e), features);
            here || (if e < s.len() { any_part_holds(s, e + 1, features) } else { false })
        } else {
            false
        }
    }
}

proof fn lemma_part_end(s: Seq<char>, start: int)
    requires
        0 <= start <= s.len(),
    ensures
        start <= part_end(s, start) <= s.len(),
        part_end(s, start) < s.len() ==> s[part_end(s, start)] == ',',
{
    lemma_index_of(s, ',', start);
}

/// Whether `v[a..b]` is wrapped in `pre` and `suf`.
fn wrapped_exec(v: &[char], a: usize, b: usize, pre: &str, suf: &str) -> (r: bool)
    requires
        a <= b <= v@.len(),
    ensures
        r == wrapped(v@.subrange(a as int, b as int), pre@, suf@),
{
    let p = chars_of(pre).len();
    let s = chars_of(suf).len();
    if p > b - a || s > b - a - p {
        return false;
    }
    let c = Ghost(v@.subrange(a as int, b as int));
    let r = range_eq(v, a, a + p, pre) && range_eq(v, b - s, b, suf);
    assert(c@.subrange(0, p as int) =~= v@.subrange(a as int, a + p));
    assert(c@.subrange(c@.len() - s, c@.len() as int) =~= v@.subrange(b - s, b as int));
    r
}

/// Whether cfg condition `condition` holds for the active `features` (see
/// `cfg_holds`).
pub fn evaluate_cfg_condition(condition: &str, active_features: &HashSet<String>) -> (r: bool)
    ensures
        r == cfg_holds(condition@, active_features@),
{
    let v = chars_of(condition);
    assert(v@.subrange(0, v@.len() as int) =~= v@);
    eval_range(&v, 0, v.len(), active_features)
}

/// Whether the condition `v[a..b]` holds.
fn eval_range(v: &[char], a: usize, b: usize, features: &HashSet<String>) -> (r: bool)
    requires
        a <= b <= v@.len(),
    ensures
        r == cfg_holds(v@.subrange(a as int, b as int), features@),
    decreases b - a, 0int,
{
    proof {
        reveal_strlit("feature = \"");
        reveal_strlit("\"");
        reveal_strlit("all(");
        reveal_strlit("any(");
        reveal_strlit("not(");
        reveal_strlit(")");
    }
    let ghost cond = v@.subrange(a as int, b as int);
    let (ta, tb) = trim_bounds(v, a, b);
    let ghost c = v@.subrange(ta as int, tb as int);
    assert(c == trim(cond));
    if wrapped_exec(v, ta, tb, "feature = \"", "\"") {
        let name = string_from_range(v, ta + 11, tb - 1);
        assert(name@ =~= inner(c, "feature = \""@, "\""@));
        return feature_active(features, name.as_str());
    }
    if wrapped_exec(v, ta, tb, "all(", ")") {
        assert(v@.subrange(ta + 4, tb - 1) =~= inner(c, "all("@, ")"@));
        return eval_parts(v, ta + 4, tb - 1, true, features);
    }
    if wrapped_exec(v, ta, tb, "any(", ")") {
        assert(v@.subrange(ta + 4, tb - 1) =~= inner(c, "any("@, ")"@));
        return eval_parts(v, ta + 4, tb - 1, false, features);
    }
    if wrapped_exec(v, ta, tb, "not(", ")") {
        assert(v@.subrange(ta + 4, tb - 1) =~= inner(c, "not("@, ")"@));
        return !eval_range(v, ta + 4, tb - 1, features);
    }
    true
}

/// Whether all (`all`) or some (not `all`) comma-separated parts of
/// `v[a..b]` hold.
fn eval_parts(v: &[char], a: usize, b: usize, all: bool, features: &HashSet<String>) -> (r: bool)
    requires
        a <= b <= v@.len(),
    ensures
        all ==> r == all_parts_hold(v@.subrange(a as int, b as int), 0, features@),
        !all ==> r == any_part_holds(v@.subrange(a as int, b as int), 0, features@),
    decreases b - a, 1int,
{
    let ghost s = v@.subrange(a as int, b as int);
    let mut start = a;
    loop
        invariant
            a <= start <= b <= v@.len(),
            s == v@.subrange(a as int, b as int),
            all ==> all_parts_hold(s, (start - a) as int, features@) == all_parts_hold(s, 0, features@),
            !all ==> any_part_holds(s, (start - a) as int, features@) == any_part_holds(s, 0, features@),
        decreases b - start,
    {
        let e = match find_char(v, ',', start) {
            Some(e) => if e < b { e } else { b },
            None => b,
        };
        proof {
            lemma_index_of(v@, ',', start as int);
            lemma_index_of(s, ',', start - a);
            lemma_part_end(s, start - a);
            assert(part_end(s, start - a) == e - a) by {
                if e < b {
                    assert(s[e - a] == ',');
                    assert(forall|k: int| start <= k < e ==> v@[k] != ',');
                    if let Some(x) = index_of(s, ',', start - a) {
                        assert(s[x] == v@[x + a]);
                    }
                } else {
                    assert(forall|k: int| start - a <= k < s.len() ==> s[k] == v@[k + a]);
                }
            }
            assert(s.subrange(start - a, e - a) =~= v@.subrange(start as int, e as int));
        }
        let here = eval_range(v, start, e, features);
        if all && !here {
            return false;
        }
        if !all && here {
            return true;
        }
        if e >= b {
            return all;
        }
        start = e + 1;
    }
}

/// Whether `s[i..j]` is one of the comma-separated parts of `s`: it starts
/// at the beginning or after a comma, ends at the end or before a comma,
/// and holds no comma.
pub open spec fn is_part(s: Seq<char>, i: int, j: int) -> bool {
    &&& 0 <= i <= j <= s.len()
    &&& (i == 0 || s[i - 1] == ',')
    &&& (j == s.len() || s[j] == ',')
    &&& forall|k: int| i <= k < j ==> s[k] != ','
}

/// The part that starts at a part start `i` ends at the first comma from
/// `i` on.
proof fn lemma_part_unique(s: Seq<char>, i: int, j: int)
    requires
        is_part(s, i, j),
    ensures
        j == part_end(s, i),
{
    lemma_index_of(s, ',', i);
}

proof fn lemma_parts_from(s: Seq<char>, start: int, features: Set<String>)
    requires
        0 <= start <= s.len(),
        start == 0 || s[start - 1] == ',',
    ensures
        all_parts_hold(s, start, features) <==> (forall|i: int, j: int| #[trigger] is_part(s, i, j) && start <= i
            ==> cfg_holds(s.subrange(i, j), features)),
        any_part_holds(s, start, features) <==> (exists|i: int, j: int| #[trigger] is_part(s, i, j) && start <= i
            && cfg_holds(s.subrange(i, j), features)),
    decreases s.len() - start,
{
    let e = part_end(s, start);
    lemma_part_end(s, start);
    lemma_index_of(s, ',', start);
    assert(is_part(s, start, e));
    if e < s.len() {
        lemma_parts_from(s, e + 1, features);
    }
    // every part from `start` on is the one at `start` or one from `e + 1` on
    assert forall|i: int, j: int| #[trigger] is_part(s, i, j) && start <= i implies
        (i == start && j == e) || (e < s.len() && e + 1 <= i) by {
        if i == start {
            lemma_part_unique(s, i, j);
        } else {
            assert(s[i - 1] == ',');
            assert(i - 1 >= e);
        }
    }
    if all_parts_hold(s, start, features) {
        assert forall|i: int, j: int| #[trigger] is_part(s, i, j) && start <= i
            implies cfg_holds(s.subrange(i, j), features) by {
            if i == start {
                lemma_part_unique(s, i, j);
            }
        }
    }
    if forall|i: int, j: int| #[trigger] is_part(s, i, j) && start <= i ==> cfg_holds(s.subrange(i, j), features) {
        assert(cfg_holds(s.subrange(start, e), features));
        if e < s.len() {
            assert forall|i: int, j: int| #[trigger] is_part(s, i, j) && e + 1 <= i
                implies cfg_holds(s.subrange(i, j), features) by {
                assert(is_part(s, i, j) && start <= i);
            }
        }
    }
    if any_part_holds(s, start, features) {
        if !cfg_holds(s.subrange(start, e), features) {
            assert(e < s.len());
            let (i, j) = choose|i: int, j: int| #[trigger] is_part(s, i, j) && e + 1 <= i
                && cfg_holds(s.subrange(i, j), features);
            assert(is_part(s, i, j) && start <= i);
        }
    }
    if exists|i: int, j: int| #[trigger] is_part(s, i, j) && start <= i && cfg_holds(s.subrange(i, j), features) {
        let (i, j) = choose|i: int, j: int| #[trigger] is_part(s, i, j) && start <= i
            && cfg_holds(s.subrange(i, j), features);
        if i == start {
            lemma_part_unique(s, i, j);
        } else {
            assert(is_part(s, i, j) && e + 1 <= i);
        }
    }
}

/// `c` wrapped in `pre` and `suf` reads as `c` between them, untrimmed.
proof fn lemma_wrapped_condition(pre: Seq<char>, s: Seq<char>, suf: Seq<char>)
    requires
        pre.len() > 0,
        suf.len() > 0,
        !crate::text::is_ws(pre[0]),
        !crate::text::is_ws(suf.last()),
    ensures
        trim(pre + s + suf) == pre + s + suf,
        wrapped(pre + s + suf, pre, suf),
        inner(pre + s + suf, pre, suf) == s,
{
    let c = pre + s + suf;
    assert(c[0] == pre[0]);
    assert(c.last() == suf.last());
    assert(crate::text::trim_start(c) == c);
    assert(crate::text::trim_end(c) == c);
    assert(c.subrange(0, pre.len() as int) =~= pre);
    assert(c.subrange(c.len() - suf.len(), c.len() as int) =~= suf);
    assert(c.subrange(pre.len() as int, c.len() - suf.len()) =~= s);
}

/// `all(p1, ..., pn)` holds exactly when every comma-separated part `pi`
/// holds; `any(p1, ..., pn)` exactly when some part does.
pub proof fn lemma_all_any_conditions(s: Seq<char>, features: Set<String>)
    ensures
        cfg_holds("all("@ + s + ")"@, features) <==> (forall|i: int, j: int| #[trigger] is_part(s, i, j)
            ==> cfg_holds(s.subrange(i, j), features)),
        cfg_holds("any("@ + s + ")"@, features) <==> (exists|i: int, j: int| #[trigger] is_part(s, i, j)
            && cfg_holds(s.subrange(i, j), features)),
{
    reveal_strlit("all(");
    reveal_strlit("any(");
    reveal_strlit(")");
    reveal_strlit("feature = \"");
    reveal_strlit("\"");
    lemma_wrapped_condition("all("@, s, ")"@);
    lemma_wrapped_condition("any("@, s, ")"@);
    let ca = "all("@ + s + ")"@;
    let cn = "any("@ + s + ")"@;
    assert(!wrapped(ca, "feature = \""@, "\""@)) by {
        if wrapped(ca, "feature = \""@, "\""@) {
            assert(ca.subrange(0, 11)[0] == ca[0]);
        }
    }
    assert(!wrapped(cn, "feature = \""@, "\""@)) by {
        if wrapped(cn, "feature = \""@, "\""@) {
            assert(cn.subrange(0, 11)[0] == cn[0]);
        }
    }
    assert(!wrapped(cn, "all("@, ")"@)) by {
        if wrapped(cn, "all("@, ")"@) {
            assert(cn.subrange(0, 4)[1] == cn[1]);
        }
    }
    lemma_parts_from(s, 0, features);
}

/// `not(c)` holds exactly when `c` does not, and `feature = "x"` exactly
/// when feature `x` is active.
pub proof fn lemma_not_feature_conditions(s: Seq<char>, features: Set<String>)
    ensures
        cfg_holds("not("@ + s + ")"@, features) == !cfg_holds(s, features),
        cfg_holds("feature = \""@ + s + "\""@, features) == has_feature(features, s),
{
    reveal_strlit("all(");
    reveal_strlit("any(");
    reveal_strlit("not(");
    reveal_strlit(")");
    reveal_strlit("feature = \"");
    reveal_strlit("\"");
    lemma_wrapped_condition("not("@, s, ")"@);
    lemma_wrapped_condition("feature = \""@, s, "\""@);
    let c = "not("@ + s + ")"@;
    assert(!wrapped(c, "feature = \""@, "\""@)) by {
        if wrapped(c, "feature = \""@, "\""@) {
            assert(c.subrange(0, 11)[0] == c[0]);
        }
    }
    assert(!wrapped(c, "all("@, ")"@)) by {
        if wrapped(c, "all("@, ")"@) {
            assert(c.subrange(0, 4)[0] == c[0]);
        }
    }
    assert(!wrapped(c, "any("@, ")"@)) by {
        if wrapped(c, "any("@, ")"@) {
            assert(c.subrange(0, 4)[0] == c[0]);
        }
    }
}

/// The edge type a stored name stands for; unknown names (and `yield`)
/// read as fall-through.
pub open spec fn stored_edge_type(s: Seq<char>) -> CfgEdgeType {
    if s == "conditional_true"@ {
        CfgEdgeType::ConditionalTrue
    } else if s == "conditional_false"@ {
        CfgEdgeType::ConditionalFalse
    } else if s == "jump"@ {
        CfgEdgeType::Jump
    } else if s == "back_edge"@ {
        CfgEdgeType::BackEdge
    } else if s == "call"@ {
        CfgEdgeType::Call
    } else if s == "return"@ {
        CfgEdgeType::Return
    } else {
        CfgEdgeType::Fallthrough
    }
}

/// The name an edge type is stored under reads back as that type, for every
/// type but `Yield` (whose name reads back as fall-through).
pub proof fn lemma_edge_type_roundtrip(t: CfgEdgeType)
    requires
        t != CfgEdgeType::Yield,
    ensures
        stored_edge_type(edge_type_name(t)) == t,
{
    reveal_strlit("fallthrough");
    reveal_strlit("conditional_true");
    reveal_strlit("conditional_false");
    reveal_strlit("jump");
    reveal_strlit("back_edge");
    reveal_strlit("call");
    reveal_strlit("return");
    assert("fallthrough"@.len() == 11);
    assert("conditional_true"@.len() == 16);
    assert("conditional_false"@.len() == 17);
    assert("jump"@.len() == 4);
    assert("back_edge"@.len() == 9);
    assert("call"@.len() == 4);
    assert("return"@.len() == 6);
    assert("call"@[0] != "jump"@[0]);
}

/// The edge type a stored name stands for (see `stored_edge_type`).
pub fn edge_type_from_stored(s: &str) -> (r: CfgEdgeType)
    ensures
        r == stored_edge_type(s@),
{
    if str_eq(s, "conditional_true") {
        CfgEdgeType::ConditionalTrue
    } else if str_eq(s, "conditional_false") {
        CfgEdgeType::ConditionalFalse
    } else if str_eq(s, "jump") {
        CfgEdgeType::Jump
    } else if str_eq(s, "back_edge") {
        CfgEdgeType::BackEdge
    } else if str_eq(s, "call") {
        CfgEdgeType::Call
    } else if str_eq(s, "return") {
        CfgEdgeType::Return
    } else {
        CfgEdgeType::Fallthrough
    }
}

/// The blocks whose `cfg` condition holds for the active features (a block
/// without one always does), in order.
pub open spec fn live_blocks(bs: Seq<CfgBlock>, features: Set<String>) -> Seq<CfgBlock>
    decreases bs.len(),
{
    if bs.len() == 0 {
        seq![]
    } else {
        let b = bs.last();
        let keep = match b.cfg_condition {
            Some(c) => cfg_holds(c@, features),
            None => true,
        };
        if keep { live_blocks(bs.drop_last(), features).push(b) } else { live_blocks(bs.drop_last(), features) }
    }
}

/// The blocks whose `cfg` condition holds (see `live_blocks`).
pub fn filter_live_blocks(blocks: Vec<CfgBlock>, active_features: &HashSet<String>) -> (r: Vec<CfgBlock>)
    ensures
        r@ == live_blocks(blocks@, active_features@),
{
    let mut out: Vec<CfgBlock> = Vec::new();
    let mut rest = blocks;
    let ghost all = rest@;
    let mut taken: Vec<CfgBlock> = Vec::new();
    while rest.len() > 0
        invariant
            all =~= rest@ + taken@.reverse(),
        decreases rest@.len(),
    {
        let ghost before_rest = rest@;
        let ghost before_taken = taken@;
        let b = rest.pop().unwrap();
        taken.push(b);
        assert(taken@.reverse() =~= seq![b] + before_taken.reverse());
        assert(before_rest =~= rest@.push(b));
    }
    let ghost n = all.len() as int;
    assert forall|k: int| 0 <= k < taken@.len() implies taken@[k] == all[n - 1 - k] by {
        assert(all[n - 1 - k] == taken@.reverse()[n - 1 - k]);
    }
    assert(all.subrange(0, 0) =~= Seq::<CfgBlock>::empty());
    while taken.len() > 0
        invariant
            n == all.len(),
            taken@.len() <= n,
            forall|k: int| 0 <= k < taken@.len() ==> taken@[k] == all[n - 1 - k],
            out@ == live_blocks(all.subrange(0, n - taken@.len()), active_features@),
        decreases taken@.len(),
    {
        let ghost m = taken@.len() as int;
        let b = taken.pop().unwrap();
        assert(b == all[n - m]);
        let keep = match &b.cfg_condition {
            Some(c) => evaluate_cfg_condition(c.as_str(), active_features),
            None => true,
        };
        assert(all.subrange(0, n - m + 1).drop_last() =~= all.subrange(0, n - m));
        assert(all.subrange(0, n - m + 1).last() == b);
        if keep {
            out.push(b);
        }
    }
    assert(all.subrange(0, n) =~= all);
    out
}

/// The SHA-256 digest of `data`.
pub uninterp spec fn sha256_of(data: Seq<u8>) -> Seq<u8>;

/// `sha2::Sha256::digest`. Trusted: the result is the SHA-256 digest
/// `sha256_of` names, a function of the bytes alone, and is 32 bytes long.
#[verifier::external_body]
fn sha256(data: &[u8]) -> (r: Vec<u8>)
    ensures
        r@ == sha256_of(data@),
        r@.len() == 32,
{
    <sha2::Sha256 as sha2::Digest>::digest(data).to_vec()
}

/// A character inside a JSON string: `"` and `\` behind a backslash, the
/// control characters with a short escape (`\b`, `\t`, `\n`, `\f`,
/// `\r`) or as `\u00` and two lower-case hex digits, any other character
/// as it is.
pub open spec fn json_char(c: char) -> Seq<char> {
    if c == '"' {
        seq!['\\', '"']
    } else if c == '\\' {
        seq!['\\', '\\']
    } else if c == '\x08' {
        seq!['\\', 'b']
    } else if c == '\t' {
        seq!['\\', 't']
    } else if c == '\n' {
        seq!['\\', 'n']
    } else if c == '\x0C' {
        seq!['\\', 'f']
    } else if c == '\r' {
        seq!['\\', 'r']
    } else if (c as u32) < 0x20 {
        seq!['\\', 'u', '0', '0', hex_digit(((c as u32) / 16) as u8), hex_digit(((c as u32) % 16) as u8)]
    } else {
        seq![c]
    }
}

/// The characters of a string, escaped for JSON.
pub open spec fn json_str_body(s: Seq<char>) -> Seq<char>
    decreases s.len(),
{
    if s.len() == 0 { seq![] } else { json_str_body(s.drop_last()) + json_char(s.last()) }
}

/// A JSON string literal.
pub open spec fn json_str(s: Seq<char>) -> Seq<char> {
    seq!['"'] + json_str_body(s) + seq!['"']
}

/// The string literals of a list, separated by commas.
pub open spec fn json_items(items: Seq<Seq<char>>) -> Seq<char>
    decreases items.len(),
{
    if items.len() == 0 {
        seq![]
    } else if items.len() == 1 {
        json_str(items[0])
    } else {
        json_items(items.drop_last()) + seq![','] + json_str(items.last())
    }
}

/// The compact JSON array text of a list of strings, as `serde_json`
/// writes it: the string literals in brackets, separated by commas, with
/// no spaces. Writing strings cannot fail, so there is always a text.
pub open spec fn json_string_list(items: Seq<Seq<char>>) -> Option<Seq<char>> {
    Some(seq!['['] + json_items(items) + seq![']'])
}

/// `serde_json::to_string` of a list of strings; none when it fails.
/// Trusted: the result is the compact JSON text `json_string_list` spells
/// out (serde_json's string escaping, `format_escaped_str_contents` with
/// its `ESCAPE` table, and the compact formatter's array brackets and
/// commas).
#[verifier::external_body]
pub(crate) fn json_of_strings(items: &Vec<String>) -> (r: Option<String>)
    ensures
        opt_text(r) == json_string_list(items@.map_values(|s: String| s@)),
{
    serde_json::to_string(items).ok()
}

/// The eight little-endian bytes of `x`.
pub open spec fn le_bytes(x: u64) -> Seq<u8> {
    Seq::new(8, |k: int| ((x >> (8 * k) as u64) & 0xff) as u8)
}

fn le_bytes_exec(x: u64) -> (r: Vec<u8>)
    ensures
        r@ == le_bytes(x),
{
    let mut r: Vec<u8> = Vec::new();
    let mut k: u64 = 0;
    while k < 8
        invariant
            k <= 8,
            r@.len() == k,
            forall|j: int| 0 <= j < k ==> r@[j] == ((x >> (8 * j) as u64) & 0xff) as u8,
        decreases 8 - k,
    {
        r.push(((x >> (8 * k)) & 0xff) as u8);
        k = k + 1;
    }
    assert(r@ =~= le_bytes(x));
    r
}

/// The UTF-8 bytes of a text.
pub open spec fn utf8(t: Seq<char>) -> Seq<u8> {
    vstd::utf8::encode_utf8(t)
}

/// The statements of a block as stored: their JSON array text, `[]` when it
/// cannot be written.
pub open spec fn statements_text(b: CfgBlock) -> Option<Seq<char>> {
    match b.statements {
        Some(v) => match json_string_list(v@.map_values(|s: String| s@)) {
            Some(t) => Some(t),
            None => Some("[]"@),
        },
        None => None,
    }
}

/// What a block's hash is computed over: the function id, kind,
/// terminator, byte span and stored statements.
pub open spec fn hash_message(b: CfgBlock) -> Seq<u8> {
    le_bytes(b.function_id as u64) + utf8(b.kind@) + utf8(b.terminator@) + le_bytes(b.byte_start)
        + le_bytes(b.byte_end) + match statements_text(b) {
            Some(t) => utf8(t),
            None => seq![],
        }
}

/// Lower-case hexadecimal digit.
pub open spec fn hex_digit(d: u8) -> char {
    if d < 10 { (('0' as u8) + d) as char } else { (('a' as u8) + d - 10) as char }
}

/// Lower-case hexadecimal text of `bytes`, two digits a byte.
pub open spec fn hex(bytes: Seq<u8>) -> Seq<char>
    decreases bytes.len(),
{
    if bytes.len() == 0 {
        seq![]
    } else {
        hex(bytes.drop_last()) + seq![hex_digit(bytes.last() / 16), hex_digit(bytes.last() % 16)]
    }
}

/// The hash a block is stored under: its own, or the first sixteen hex
/// digits of the SHA-256 of its content (see `hash_message`).
pub open spec fn stored_cfg_hash(b: CfgBlock) -> Seq<char> {
    match b.cfg_hash {
        Some(h) => h@,
        None => hex(sha256_of(hash_message(b)).subrange(0, 8)),
    }
}

fn hex_digit_exec(d: u8) -> (c: char)
    requires
        d < 16,
    ensures
        c == hex_digit(d),
{
    if d < 10 { (('0' as u8) + d) as char } else { (('a' as u8) + d - 10) as char }
}

fn append_bytes(out: &mut Vec<u8>, bytes: &[u8])
    ensures
        final(out)@ == old(out)@ + bytes@,
{
    let mut i: usize = 0;
    while i < bytes.len()
        invariant
            i <= bytes@.len(),
            out@ == old(out)@ + bytes@.subrange(0, i as int),
        decreases bytes@.len() - i,
    {
        out.push(bytes[i]);
        assert(bytes@.subrange(0, i + 1) =~= bytes@.subrange(0, i as int).push(bytes@[i as int]));
        i = i + 1;
    }
    assert(bytes@.subrange(0, bytes@.len() as int) =~= bytes@);
}

/// The bytes a block's hash is computed over (see `hash_message`).
pub fn block_hash_message(b: &CfgBlock) -> (r: Vec<u8>)
    ensures
        r@ == hash_message(*b),
{
    let statements: Option<String> = match &b.statements {
        Some(v) => match json_of_strings(v) {
            Some(t) => Some(t),
            None => Some("[]".to_owned()),
        },
        None => None,
    };
    assert(opt_text(statements) == statements_text(*b));
    let mut msg: Vec<u8> = Vec::new();
    append_bytes(&mut msg, le_bytes_exec(b.function_id as u64).as_slice());
    append_bytes(&mut msg, b.kind.as_str().as_bytes());
    append_bytes(&mut msg, b.terminator.as_str().as_bytes());
    append_bytes(&mut msg, le_bytes_exec(b.byte_start).as_slice());
    append_bytes(&mut msg, le_bytes_exec(b.byte_end).as_slice());
    if let Some(t) = &statements {
        append_bytes(&mut msg, t.as_str().as_bytes());
    }
    assert(msg@ =~= hash_message(*b));
    msg
}

/// The stored text of a digest: the lower-case hex of its first eight
/// bytes.
pub fn digest_text(digest: &Vec<u8>) -> (r: String)
    requires
        digest@.len() >= 8,
    ensures
        r@ == hex(digest@.subrange(0, 8)),
{
    let mut out = String::new();
    let mut i: usize = 0;
    while i < 8
        invariant
            i <= 8,
            digest@.len() >= 8,
            out@ == hex(digest@.subrange(0, i as int)),
        decreases 8 - i,
    {
        let d = digest[i];
        crate::text::push_char(&mut out, hex_digit_exec(d / 16));
        crate::text::push_char(&mut out, hex_digit_exec(d % 16));
        assert(digest@.subrange(0, i + 1).drop_last() =~= digest@.subrange(0, i as int));
        i = i + 1;
    }
    out
}

/// The hash block `b` is stored under (see `stored_cfg_hash`): its own, or
/// the digest text of the SHA-256 of its content.
pub fn block_cfg_hash(b: &CfgBlock) -> (r: String)
    ensures
        r@ == stored_cfg_hash(*b),
{
    if let Some(h) = &b.cfg_hash {
        return h.clone();
    }
    let msg = block_hash_message(b);
    let digest = sha256(msg.as_slice());
    digest_text(&digest)
}

} // verus!
