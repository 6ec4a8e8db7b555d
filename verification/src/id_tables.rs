//! The ahash tables of entity ids that the graph algorithms keep: the
//! declarations that let verified code hold them, names for what they hold,
//! and the operations the algorithms call, each with what the crate's
//! source shows it does.

use vstd::prelude::*;
use ahash::{AHashMap, AHashSet};

verus! {

/// `ahash::AHashMap`, carried opaque.
#[verifier::external_type_specification]
#[verifier::external_body]
#[verifier::reject_recursive_types(K)]
#[verifier::reject_recursive_types(V)]
#[verifier::reject_recursive_types(S)]
pub struct ExAHashMap<K, V, S>(AHashMap<K, V, S>);

/// `ahash::AHashSet`, carried opaque.
#[verifier::external_type_specification]
#[verifier::external_body]
#[verifier::reject_recursive_types(T)]
#[verifier::reject_recursive_types(S)]
pub struct ExAHashSet<T, S>(AHashSet<T, S>);

/// `ahash::RandomState`, the hasher state the tables are built with.
#[verifier::external_type_specification]
#[verifier::external_body]
pub struct ExRandomState(ahash::RandomState);

/// The entries of a map from ids to numbers.
pub uninterp spec fn pos_map_contents(m: AHashMap<i64, usize>) -> Map<i64, usize>;

/// The entries of a map from ids to ids.
pub uninterp spec fn id_map_contents(m: AHashMap<i64, i64>) -> Map<i64, i64>;

/// The ids in a set.
pub uninterp spec fn id_set_contents(s: AHashSet<i64>) -> Set<i64>;

/// `AHashMap::new`. Trusted: the map is empty.
#[verifier::external_body]
pub(crate) fn pos_map_new() -> (m: AHashMap<i64, usize>)
    ensures
        pos_map_contents(m).dom() == Set::<i64>::empty(),
{
    AHashMap::new()
}

/// `AHashMap::insert`, its result dropped. Trusted: the entry for `k` is
/// `v` afterwards and the others are unchanged (a `HashMap` keyed by `i64`).
#[verifier::external_body]
pub(crate) fn pos_map_insert(m: &mut AHashMap<i64, usize>, k: i64, v: usize)
    ensures
        pos_map_contents(*final(m)) == pos_map_contents(*old(m)).insert(k, v),
{
    m.insert(k, v);
}

/// `AHashMap::get`, the value copied out. Trusted: the value of the entry
/// for `k`, none without one.
#[verifier::external_body]
pub(crate) fn pos_map_get(m: &AHashMap<i64, usize>, k: i64) -> (r: Option<usize>)
    ensures
        r == (if pos_map_contents(*m).contains_key(k) { Some(pos_map_contents(*m)[k]) } else { None }),
{
    m.get(&k).copied()
}

/// `HashMap::contains_key`, reached through `AHashMap`'s deref. Trusted:
/// whether there is an entry for `k`.
#[verifier::external_body]
pub(crate) fn pos_map_contains(m: &AHashMap<i64, usize>, k: i64) -> (r: bool)
    ensures
        r == pos_map_contents(*m).contains_key(k),
{
    m.contains_key(&k)
}

/// `AHashMap::new`. Trusted: the map is empty.
#[verifier::external_body]
pub(crate) fn id_map_new() -> (m: AHashMap<i64, i64>)
    ensures
        id_map_contents(m).dom() == Set::<i64>::empty(),
{
    AHashMap::new()
}

/// `AHashMap::insert`, its result dropped. Trusted: the entry for `k` is
/// `v` afterwards and the others are unchanged.
#[verifier::external_body]
pub(crate) fn id_map_insert(m: &mut AHashMap<i64, i64>, k: i64, v: i64)
    ensures
        id_map_contents(*final(m)) == id_map_contents(*old(m)).insert(k, v),
{
    m.insert(k, v);
}

/// `AHashMap::get`, the value copied out. Trusted: the value of the entry
/// for `k`, none without one.
#[verifier::external_body]
pub(crate) fn id_map_get(m: &AHashMap<i64, i64>, k: i64) -> (r: Option<i64>)
    ensures
        r == (if id_map_contents(*m).contains_key(k) { Some(id_map_contents(*m)[k]) } else { None }),
{
    m.get(&k).copied()
}

/// `AHashSet::new`. Trusted: the set is empty.
#[verifier::external_body]
pub(crate) fn id_set_new() -> (s: AHashSet<i64>)
    ensures
        id_set_contents(s) == Set::<i64>::empty(),
{
    AHashSet::new()
}

/// `HashSet::insert`, reached through `AHashSet`'s deref. Trusted: `x` is
/// in the set afterwards, nothing else changes, and the result tells
/// whether it was absent before.
#[verifier::external_body]
pub(crate) fn id_set_insert(s: &mut AHashSet<i64>, x: i64) -> (r: bool)
    ensures
        id_set_contents(*final(s)) == id_set_contents(*old(s)).insert(x),
        r == !id_set_contents(*old(s)).contains(x),
{
    s.insert(x)
}

/// `HashSet::contains`, reached through `AHashSet`'s deref. Trusted:
/// whether `x` is in the set.
#[verifier::external_body]
pub(crate) fn id_set_contains(s: &AHashSet<i64>, x: i64) -> (r: bool)
    ensures
        r == id_set_contents(*s).contains(x),
{
    s.contains(&x)
}

} // verus!
