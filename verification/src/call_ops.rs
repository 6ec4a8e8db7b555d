//! Resolution of the calls found in a file to the symbols they join: the
//! caller by its qualified name, the callee by its qualified name or else by
//! its simple name, and the plan of the calls of a file to record.

use vstd::prelude::*;
use crate::text::{chars_of, string_from_range, str_eq};
use crate::order::opt_chars;

verus! {

/// The last piece of `s[from..]` split at `::`, matches taken from left to
/// right without overlap (as `str::split("::")` takes them).
pub open spec fn last_piece_dcolon(s: Seq<char>, from: int) -> Seq<char>
    decreases s.len() - from,
{
    if from < 0 || from > s.len() {
        seq![]
    } else if from + 1 < s.len() && s[from] == ':' && s[from + 1] == ':' {
        last_piece_dcolon(s, from + 2)
    } else if from + 1 < s.len() {
        last_piece_dcolon_scan(s, from, from + 1)
    } else {
        s.skip(from)
    }
}

/// Scanning `s` for `::` from `at`, the current piece starting at `start`.
pub open spec fn last_piece_dcolon_scan(s: Seq<char>, start: int, at: int) -> Seq<char>
    decreases s.len() - at,
{
    if at < start || at > s.len() || start < 0 {
        seq![]
    } else if at + 1 < s.len() && s[at] == ':' && s[at + 1] == ':' {
        last_piece_dcolon(s, at + 2)
    } else if at + 1 < s.len() {
        last_piece_dcolon_scan(s, start, at + 1)
    } else {
        s.skip(start)
    }
}

/// What follows the last `.` of `s`, or all of `s` without one.
pub open spec fn after_last_dot(s: Seq<char>) -> Seq<char>
    decreases s.len(),
{
    if s.len() == 0 {
        s
    } else if s.last() == '.' {
        seq![]
    } else {
        after_last_dot(s.drop_last()).push(s.last())
    }
}

/// The simple name of a qualified name: its last `::` piece, then what
/// follows the last `.` of that.
pub open spec fn simple_name_of(fqn: Seq<char>) -> Seq<char> {
    after_last_dot(last_piece_dcolon(fqn, 0))
}

/// The last `::` piece of the characters.
fn last_dcolon_piece(v: &Vec<char>) -> (r: (usize, usize))
    ensures
        r.0 <= r.1 <= v@.len(),
        v@.subrange(r.0 as int, r.1 as int) == last_piece_dcolon(v@, 0),
{
    let mut start: usize = 0;
    let mut at: usize = 0;
    while at < v.len() && at + 1 < v.len()
        invariant
            start <= at <= v@.len(),
            last_piece_dcolon(v@, 0) == last_piece_dcolon_scan(v@, start as int, at as int)
                || (at == start && last_piece_dcolon(v@, 0) == last_piece_dcolon(v@, start as int)),
        decreases v@.len() - at,
    {
        if v[at] == ':' && v[at + 1] == ':' {
            proof {
                if at == start {
                    assert(last_piece_dcolon(v@, start as int) == last_piece_dcolon(v@, at + 2));
                } else {
                    assert(last_piece_dcolon_scan(v@, start as int, at as int) == last_piece_dcolon(v@, at + 2));
                }
                if at + 2 + 1 < v@.len() && !(v@[at + 2] == ':' && v@[at + 3] == ':') {
                    assert(last_piece_dcolon(v@, at + 2) == last_piece_dcolon_scan(v@, at + 2, at + 3));
                }
            }
            start = at + 2;
            at = at + 2;
        } else {
            proof {
                if at == start {
                    assert(last_piece_dcolon(v@, start as int) == last_piece_dcolon_scan(v@, start as int, at + 1));
                } else {
                    assert(last_piece_dcolon_scan(v@, start as int, at as int) == last_piece_dcolon_scan(v@, start as int, at + 1));
                }
            }
            at = at + 1;
        }
    }
    proof {
        if at == start {
            if start <= v@.len() {
                assert(last_piece_dcolon(v@, start as int) == v@.skip(start as int));
            }
        } else {
            assert(last_piece_dcolon_scan(v@, start as int, at as int) == v@.skip(start as int));
        }
        assert(v@.subrange(start as int, v@.len() as int) =~= v@.skip(start as int));
    }
    (start, v.len())
}

/// The simple name of a qualified name: its last `::` piece, then what
/// follows the last `.` of that.
pub fn simple_name(fqn: &str) -> (r: String)
    ensures
        r@ == simple_name_of(fqn@),
{
    let v = chars_of(fqn);
    let (a, b) = last_dcolon_piece(&v);
    let ghost piece = v@.subrange(a as int, b as int);
    let mut k: usize = b;
    while k > a && v[k - 1] != '.'
        invariant
            a <= k <= b <= v@.len(),
            piece == v@.subrange(a as int, b as int),
            after_last_dot(piece) == after_last_dot(v@.subrange(a as int, k as int)) + v@.subrange(k as int, b as int),
        decreases k - a,
    {
        proof {
            let pre = v@.subrange(a as int, k as int);
            assert(pre.drop_last() =~= v@.subrange(a as int, k - 1));
            assert(pre.last() == v@[k - 1]);
            assert(v@.subrange(k - 1, b as int) =~= seq![v@[k - 1]] + v@.subrange(k as int, b as int));
            assert(after_last_dot(v@.subrange(a as int, k - 1)).push(v@[k - 1]) + v@.subrange(k as int, b as int)
                =~= after_last_dot(v@.subrange(a as int, k - 1)) + v@.subrange(k - 1, b as int));
        }
        k = k - 1;
    }
    proof {
        let pre = v@.subrange(a as int, k as int);
        if k > a {
            assert(pre.last() == '.');
        } else {
            assert(pre =~= Seq::<char>::empty());
        }
        assert(after_last_dot(pre) =~= Seq::<char>::empty());
        assert(after_last_dot(piece) =~= v@.subrange(k as int, b as int));
    }
    string_from_range(v.as_slice(), k, b)
}

/// The id paired with the first key `k`, if any.
pub open spec fn id_for_key(pairs: Seq<(String, i64)>, k: Seq<char>) -> Option<i64>
    decreases pairs.len(),
{
    if pairs.len() == 0 {
        None
    } else if pairs[0].0@ == k {
        Some(pairs[0].1)
    } else {
        id_for_key(pairs.drop_first(), k)
    }
}

/// The id paired with the first key whose simple name is `name`, if any.
pub open spec fn id_for_simple_name(pairs: Seq<(String, i64)>, name: Seq<char>) -> Option<i64>
    decreases pairs.len(),
{
    if pairs.len() == 0 {
        None
    } else if simple_name_of(pairs[0].0@) == name {
        Some(pairs[0].1)
    } else {
        id_for_simple_name(pairs.drop_first(), name)
    }
}

/// The callee of a call: the symbol of that qualified name, or else the
/// first whose simple name it is.
pub open spec fn callee_id(pairs: Seq<(String, i64)>, callee: Seq<char>) -> Option<i64> {
    match id_for_key(pairs, callee) {
        Some(id) => Some(id),
        None => id_for_simple_name(pairs, callee),
    }
}

/// The first id whose key is `k`.
fn find_key(pairs: &Vec<(String, i64)>, k: &str) -> (r: Option<i64>)
    ensures
        r == id_for_key(pairs@, k@),
{
    let mut i: usize = 0;
    assert(pairs@.skip(0) =~= pairs@);
    while i < pairs.len()
        invariant
            i <= pairs@.len(),
            id_for_key(pairs@, k@) == id_for_key(pairs@.skip(i as int), k@),
        decreases pairs@.len() - i,
    {
        assert(pairs@.skip(i as int)[0] == pairs@[i as int]);
        if str_eq(pairs[i].0.as_str(), k) {
            return Some(pairs[i].1);
        }
        assert(pairs@.skip(i as int).drop_first() =~= pairs@.skip(i + 1));
        i = i + 1;
    }
    None
}

/// The first id whose key has simple name `name`.
fn find_simple_name(pairs: &Vec<(String, i64)>, name: &str) -> (r: Option<i64>)
    ensures
        r == id_for_simple_name(pairs@, name@),
{
    let mut i: usize = 0;
    assert(pairs@.skip(0) =~= pairs@);
    while i < pairs.len()
        invariant
            i <= pairs@.len(),
            id_for_simple_name(pairs@, name@) == id_for_simple_name(pairs@.skip(i as int), name@),
        decreases pairs@.len() - i,
    {
        assert(pairs@.skip(i as int)[0] == pairs@[i as int]);
        let s = simple_name(pairs[i].0.as_str());
        if str_eq(s.as_str(), name) {
            return Some(pairs[i].1);
        }
        assert(pairs@.skip(i as int).drop_first() =~= pairs@.skip(i + 1));
        i = i + 1;
    }
    None
}

/// The symbols a call joins, given the symbols as (qualified name, entity
/// id) pairs in the order the index lists them: the caller by its
/// qualified name, the callee by its qualified name or else by the first
/// symbol whose simple name it is. `None` when either is not found, and the
/// call is then not recorded.
pub fn resolve_call(symbol_ids: &Vec<(String, i64)>, caller: &str, callee: &str) -> (r: Option<(i64, i64)>)
    ensures
        r == match (id_for_key(symbol_ids@, caller@), callee_id(symbol_ids@, callee@)) {
            (Some(a), Some(b)) => Some((a, b)),
            _ => None,
        },
{
    let callee_found = match find_key(symbol_ids, callee) {
        Some(id) => Some(id),
        None => find_simple_name(symbol_ids, callee),
    };
    let caller_found = find_key(symbol_ids, caller);
    match (caller_found, callee_found) {
        (Some(a), Some(b)) => Some((a, b)),
        _ => None,
    }
}

/// The stable symbol id recorded for the symbol `name` of file `file`:
/// that of the first entry for the pair, none without one.
pub open spec fn stable_id_for(entries: Seq<(String, String, Option<String>)>, file: Seq<char>, name: Seq<char>) -> Option<Seq<char>>
    decreases entries.len(),
{
    if entries.len() == 0 {
        None
    } else if entries[0].0@ == file && entries[0].1@ == name {
        opt_chars(entries[0].2)
    } else {
        stable_id_for(entries.drop_first(), file, name)
    }
}

/// The calls of `calls` (file, caller, callee) to record, in order: each
/// that `resolve_call` resolves, as its position, the caller's and the
/// callee's entity ids, and the stable ids of caller and callee looked up
/// by the call's file and their names.
pub open spec fn planned_calls(
    symbol_ids: Seq<(String, i64)>,
    stable: Seq<(String, String, Option<String>)>,
    calls: Seq<(String, String, String)>,
) -> Seq<(int, i64, i64, Option<Seq<char>>, Option<Seq<char>>)>
    decreases calls.len(),
{
    if calls.len() == 0 {
        seq![]
    } else {
        let rest = planned_calls(symbol_ids, stable, calls.drop_last());
        let c = calls.last();
        match (id_for_key(symbol_ids, c.1@), callee_id(symbol_ids, c.2@)) {
            (Some(a), Some(b)) => rest.push((calls.len() - 1, a, b,
                stable_id_for(stable, c.0@, c.1@), stable_id_for(stable, c.0@, c.2@))),
            _ => rest,
        }
    }
}

/// What a plan entry says, as values.
pub open spec fn plan_view(p: (usize, i64, i64, Option<String>, Option<String>)) -> (int, i64, i64, Option<Seq<char>>, Option<Seq<char>>) {
    (p.0 as int, p.1, p.2, opt_chars(p.3), opt_chars(p.4))
}

/// The stable id of the first entry for (`file`, `name`).
fn find_stable_id(entries: &Vec<(String, String, Option<String>)>, file: &str, name: &str) -> (r: Option<String>)
    ensures
        opt_chars(r) == stable_id_for(entries@, file@, name@),
{
    let mut i: usize = 0;
    assert(entries@.skip(0) =~= entries@);
    while i < entries.len()
        invariant
            i <= entries@.len(),
            stable_id_for(entries@, file@, name@) == stable_id_for(entries@.skip(i as int), file@, name@),
        decreases entries@.len() - i,
    {
        assert(entries@.skip(i as int)[0] == entries@[i as int]);
        if str_eq(entries[i].0.as_str(), file) && str_eq(entries[i].1.as_str(), name) {
            return match &entries[i].2 {
                Some(id) => Some(id.clone()),
                None => None,
            };
        }
        assert(entries@.skip(i as int).drop_first() =~= entries@.skip(i + 1));
        i = i + 1;
    }
    None
}

/// The plan for recording the calls found in a file: the number of calls
/// found, and the calls to record (see `planned_calls`), given the symbols
/// as (qualified name, entity id) pairs and the stable ids as (file, name,
/// stable id) entries.
pub fn plan_call_index(
    symbol_ids: &Vec<(String, i64)>,
    stable_ids: &Vec<(String, String, Option<String>)>,
    calls: &Vec<(String, String, String)>,
) -> (r: (usize, Vec<(usize, i64, i64, Option<String>, Option<String>)>))
    ensures
        r.0 == calls@.len(),
        r.1@.map_values(|p: (usize, i64, i64, Option<String>, Option<String>)| plan_view(p))
            == planned_calls(symbol_ids@, stable_ids@, calls@),
{
    let mut out: Vec<(usize, i64, i64, Option<String>, Option<String>)> = Vec::new();
    let mut k: usize = 0;
    assert(calls@.take(0) =~= Seq::<(String, String, String)>::empty());
    assert(out@.map_values(|p: (usize, i64, i64, Option<String>, Option<String>)| plan_view(p)) =~= Seq::<(int, i64, i64, Option<Seq<char>>, Option<Seq<char>>)>::empty());
    while k < calls.len()
        invariant
            k <= calls@.len(),
            out@.map_values(|p: (usize, i64, i64, Option<String>, Option<String>)| plan_view(p))
                == planned_calls(symbol_ids@, stable_ids@, calls@.take(k as int)),
        decreases calls@.len() - k,
    {
        let c = &calls[k];
        proof {
            assert(calls@.take(k + 1).drop_last() =~= calls@.take(k as int));
            assert(calls@.take(k + 1).last() == calls@[k as int]);
        }
        match resolve_call(symbol_ids, c.1.as_str(), c.2.as_str()) {
            Some((a, b)) => {
                let caller_sid = find_stable_id(stable_ids, c.0.as_str(), c.1.as_str());
                let callee_sid = find_stable_id(stable_ids, c.0.as_str(), c.2.as_str());
                let ghost before = out@;
                let p = (k, a, b, caller_sid, callee_sid);
                out.push(p);
                assert(out@ =~= before.push(p));
                assert(out@.map_values(|p: (usize, i64, i64, Option<String>, Option<String>)| plan_view(p))
                    =~= before.map_values(|p: (usize, i64, i64, Option<String>, Option<String>)| plan_view(p)).push(plan_view(p)));
            },
            None => {},
        }
        k = k + 1;
    }
    assert(calls@.take(calls@.len() as int) =~= calls@);
    (calls.len(), out)
}

} // verus!
