//! The order of strings: lexicographic by character, as `str` orders
//! itself (comparing UTF-8 bytes orders by code point).

use vstd::prelude::*;
use crate::text::chars_of;

verus! {

/// Whether `a` comes strictly before `b`: at the first position where they
/// differ the character of `a` is smaller, or `a` is a proper prefix of `b`.
pub open spec fn seq_lt(a: Seq<char>, b: Seq<char>) -> bool
    decreases a.len(),
{
    if a.len() == 0 {
        b.len() > 0
    } else if b.len() == 0 {
        false
    } else if a[0] != b[0] {
        (a[0] as u32) < (b[0] as u32)
    } else {
        seq_lt(a.drop_first(), b.drop_first())
    }
}

/// The characters of an optional string.
pub open spec fn opt_chars(o: Option<String>) -> Option<Seq<char>> {
    match o {
        Some(s) => Some(s@),
        None => None,
    }
}

/// Strict order on optional strings: nothing comes before any string.
pub open spec fn opt_seq_lt(a: Option<Seq<char>>, b: Option<Seq<char>>) -> bool {
    match (a, b) {
        (None, Some(_)) => true,
        (Some(x), Some(y)) => seq_lt(x, y),
        _ => false,
    }
}

/// The order is transitive.
pub proof fn lemma_seq_lt_transitive(a: Seq<char>, b: Seq<char>, c: Seq<char>)
    requires
        seq_lt(a, b),
        seq_lt(b, c),
    ensures
        seq_lt(a, c),
    decreases a.len(),
{
    if a.len() > 0 && b.len() > 0 && c.len() > 0 && a[0] == b[0] && b[0] == c[0] {
        lemma_seq_lt_transitive(a.drop_first(), b.drop_first(), c.drop_first());
    }
}

/// The order is irreflexive.
pub proof fn lemma_seq_lt_irreflexive(a: Seq<char>)
    ensures
        !seq_lt(a, a),
    decreases a.len(),
{
    if a.len() > 0 {
        lemma_seq_lt_irreflexive(a.drop_first());
    }
}

/// Of two different strings one comes before the other.
pub proof fn lemma_seq_lt_total(a: Seq<char>, b: Seq<char>)
    requires
        a != b,
    ensures
        seq_lt(a, b) || seq_lt(b, a),
    decreases a.len(),
{
    if a.len() > 0 && b.len() > 0 {
        if a[0] == b[0] {
            if a.drop_first() == b.drop_first() {
                assert(a.drop_first().len() == a.len() - 1 && b.drop_first().len() == b.len() - 1);
                assert(a.len() == b.len());
                assert forall|i: int| 0 <= i < a.len() implies a[i] == b[i] by {
                    if i > 0 {
                        assert(a[i] == a.drop_first()[i - 1]);
                        assert(b[i] == b.drop_first()[i - 1]);
                    }
                }
                assert(a =~= b);
            }
            lemma_seq_lt_total(a.drop_first(), b.drop_first());
        } else {
            let (x, y) = (a[0], b[0]);
            vstd::utf8::char_u32_cast(x, x as u32);
            vstd::utf8::char_u32_cast(y, y as u32);
            assert((x as u32) != (y as u32));
        }
    } else if a.len() == 0 && b.len() == 0 {
        assert(a =~= b);
    }
}

/// Of two different optional strings one comes before the other.
pub proof fn lemma_opt_seq_lt_total(a: Option<Seq<char>>, b: Option<Seq<char>>)
    requires
        a != b,
    ensures
        opt_seq_lt(a, b) || opt_seq_lt(b, a),
{
    if a is Some && b is Some {
        lemma_seq_lt_total(a->0, b->0);
    }
}

/// Optional strings: the order is transitive.
pub proof fn lemma_opt_seq_lt_transitive(a: Option<Seq<char>>, b: Option<Seq<char>>, c: Option<Seq<char>>)
    requires
        opt_seq_lt(a, b),
        opt_seq_lt(b, c),
    ensures
        opt_seq_lt(a, c),
{
    if a is Some {
        lemma_seq_lt_transitive(a->0, b->0, c->0);
    }
}

/// Optional strings: the order is irreflexive.
pub proof fn lemma_opt_seq_lt_irreflexive(a: Option<Seq<char>>)
    ensures
        !opt_seq_lt(a, a),
{
    if a is Some {
        lemma_seq_lt_irreflexive(a->0);
    }
}

/// Where a stable insertion puts `x` into `s`: before the first element
/// that `x` comes strictly before, else at the end.
pub open spec fn insert_pos<T>(s: Seq<T>, x: T, lt: spec_fn(T, T) -> bool) -> int
    decreases s.len(),
{
    if s.len() == 0 {
        0
    } else if lt(x, s[0]) {
        0
    } else {
        1 + insert_pos(s.drop_first(), x, lt)
    }
}

/// `s` sorted stably by the strict order `lt`: the elements are placed in
/// the order they come, each after every element placed before it that it
/// does not come strictly before, so elements that compare equal keep
/// their order.
pub open spec fn stable_sorted<T>(s: Seq<T>, lt: spec_fn(T, T) -> bool) -> Seq<T>
    decreases s.len(),
{
    if s.len() == 0 {
        s
    } else {
        let t = stable_sorted(s.drop_last(), lt);
        t.insert(insert_pos(t, s.last(), lt), s.last())
    }
}

/// The first position whose element `x` comes strictly before is where a
/// stable insertion puts `x`.
pub proof fn lemma_insert_pos<T>(s: Seq<T>, x: T, lt: spec_fn(T, T) -> bool, i: int)
    requires
        0 <= i <= s.len(),
        forall|a: int| 0 <= a < i ==> !lt(x, #[trigger] s[a]),
        i == s.len() || lt(x, s[i]),
    ensures
        insert_pos(s, x, lt) == i,
    decreases s.len(),
{
    if s.len() > 0 && i > 0 {
        assert forall|a: int| 0 <= a < i - 1 implies !lt(x, #[trigger] s.drop_first()[a]) by {
            assert(s.drop_first()[a] == s[a + 1]);
        }
        lemma_insert_pos(s.drop_first(), x, lt, i - 1);
    }
}

/// One more element sorted in: the sort of a longer prefix.
pub proof fn lemma_stable_sorted_step<T>(s: Seq<T>, k: int, lt: spec_fn(T, T) -> bool)
    requires
        0 <= k < s.len(),
    ensures
        stable_sorted(s.take(k + 1), lt) == stable_sorted(s.take(k), lt).insert(
            insert_pos(stable_sorted(s.take(k), lt), s[k], lt), s[k]),
{
    assert(s.take(k + 1).drop_last() =~= s.take(k));
    assert(s.take(k + 1).last() == s[k]);
}

/// Whether `a` comes strictly before `b`.
pub fn str_lt(a: &str, b: &str) -> (r: bool)
    ensures
        r == seq_lt(a@, b@),
{
    let x = chars_of(a);
    let y = chars_of(b);
    let mut i: usize = 0;
    assert(x@.skip(0) =~= x@ && y@.skip(0) =~= y@);
    while i < x.len() && i < y.len()
        invariant
            x@ == a@,
            y@ == b@,
            i <= x@.len(),
            i <= y@.len(),
            seq_lt(a@, b@) == seq_lt(x@.skip(i as int), y@.skip(i as int)),
        decreases x@.len() - i,
    {
        if x[i] != y[i] {
            return (x[i] as u32) < (y[i] as u32);
        }
        assert(x@.skip(i as int).drop_first() =~= x@.skip(i + 1));
        assert(y@.skip(i as int).drop_first() =~= y@.skip(i + 1));
        i = i + 1;
    }
    i == x.len() && i < y.len()
}

/// Whether `a` comes strictly before `b`, nothing before any string.
pub fn opt_str_lt(a: &Option<String>, b: &Option<String>) -> (r: bool)
    ensures
        r == opt_seq_lt(opt_chars(*a), opt_chars(*b)),
{
    match (a, b) {
        (None, Some(_)) => true,
        (Some(x), Some(y)) => str_lt(x.as_str(), y.as_str()),
        _ => false,
    }
}

} // verus!
