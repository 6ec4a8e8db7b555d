//! A least-recently-used cache: a bounded set of key-value entries kept in
//! order of use, the entry used longest ago being the one dropped when a new
//! key needs room, with hit and miss counts.

use vstd::prelude::*;
use crate::text::str_eq;

verus! {

broadcast use vstd::string::group_string_axioms;

/// A key of a cache: equality and copies follow the key's view.
pub trait CacheKey: View + Sized {
    /// Whether the two keys are the same key.
    fn same_key(&self, other: &Self) -> (r: bool)
        ensures
            r == (self@ == other@);

    /// A copy of the key.
    fn clone_key(&self) -> (r: Self)
        ensures
            r@ == self@;
}

impl CacheKey for String {
    fn same_key(&self, other: &Self) -> (r: bool) {
        str_eq(self.as_str(), other.as_str())
    }

    fn clone_key(&self) -> (r: Self) {
        self.clone()
    }
}

/// Cache key for an entity id.
#[derive(Debug, Clone, Copy, Hash, PartialEq, Eq, Structural)]
pub struct EntityCacheKey(pub i64);

/// Cache key for a name.
#[derive(Debug, Clone, Hash)]
pub struct NameCacheKey(pub String);

/// Cache key for an expansion of an entity.
#[derive(Debug, Clone, Copy, Hash, PartialEq, Eq, Structural)]
pub struct ExpandCacheKey(pub i64);

impl View for EntityCacheKey {
    type V = int;

    open spec fn view(&self) -> int {
        self.0 as int
    }
}

impl CacheKey for EntityCacheKey {
    fn same_key(&self, other: &Self) -> (r: bool) {
        self.0 == other.0
    }

    fn clone_key(&self) -> (r: Self) {
        EntityCacheKey(self.0)
    }
}

impl View for ExpandCacheKey {
    type V = int;

    open spec fn view(&self) -> int {
        self.0 as int
    }
}

impl CacheKey for ExpandCacheKey {
    fn same_key(&self, other: &Self) -> (r: bool) {
        self.0 == other.0
    }

    fn clone_key(&self) -> (r: Self) {
        ExpandCacheKey(self.0)
    }
}

impl View for NameCacheKey {
    type V = Seq<char>;

    open spec fn view(&self) -> Seq<char> {
        self.0@
    }
}

impl CacheKey for NameCacheKey {
    fn same_key(&self, other: &Self) -> (r: bool) {
        str_eq(self.0.as_str(), other.0.as_str())
    }

    fn clone_key(&self) -> (r: Self) {
        NameCacheKey(self.0.clone())
    }
}

/// Counters of a cache.
#[derive(Debug, Clone, Copy, PartialEq, Eq, Structural)]
pub struct CacheStats {
    /// Lookups that found their key.
    pub hits: usize,
    /// Lookups that did not.
    pub misses: usize,
    /// Entries held.
    pub size: usize,
}

/// Position of the entry with key `k`.
pub open spec fn key_pos<KV, V>(s: Seq<(KV, V)>, k: KV) -> Option<int>
    decreases s.len(),
{
    if s.len() == 0 {
        None
    } else if s.last().0 == k {
        Some(s.len() - 1)
    } else {
        key_pos(s.drop_last(), k)
    }
}

/// How many entries a cache of capacity `cap` holds at most: its
/// capacity, or one for a cache of capacity 0 (a store always keeps the
/// entry just stored).
pub open spec fn room(cap: nat) -> nat {
    if cap == 0 { 1 } else { cap }
}

/// No key occurs twice.
pub open spec fn keys_distinct<KV, V>(s: Seq<(KV, V)>) -> bool {
    forall|i: int, j: int| 0 <= i < j < s.len() ==> s[i].0 != s[j].0
}

/// The entries after `put(k, v)`: the new entry first, then the others,
/// without the old entry for `k`, or, when `k` is new and the cache is at
/// capacity, without the entry used longest ago.
pub open spec fn after_put<KV, V>(s: Seq<(KV, V)>, cap: nat, k: KV, v: V) -> Seq<(KV, V)> {
    let rest = match key_pos(s, k) {
        Some(i) => s.remove(i),
        None => if s.len() >= cap && s.len() > 0 { s.drop_last() } else { s },
    };
    seq![(k, v)] + rest
}

/// Entries of a cache after a lookup that found key `k` at position `i`:
/// that entry moves to the front.
pub open spec fn after_hit<KV, V>(s: Seq<(KV, V)>, i: int) -> Seq<(KV, V)> {
    seq![s[i]] + s.remove(i)
}

/// Entries after dropping key `k`.
pub open spec fn after_invalidate<KV, V>(s: Seq<(KV, V)>, k: KV) -> Seq<(KV, V)> {
    match key_pos(s, k) {
        Some(i) => s.remove(i),
        None => s,
    }
}

proof fn lemma_key_pos<KV, V>(s: Seq<(KV, V)>, k: KV)
    ensures
        key_pos(s, k) matches Some(i) ==> 0 <= i < s.len() && s[i].0 == k,
        key_pos(s, k) is None ==> forall|j: int| 0 <= j < s.len() ==> s[j].0 != k,
    decreases s.len(),
{
    if s.len() > 0 && s.last().0 != k {
        lemma_key_pos(s.drop_last(), k);
        if key_pos(s, k) is None {
            assert forall|j: int| 0 <= j < s.len() implies s[j].0 != k by {
                if j < s.len() - 1 {
                    assert(s[j] == s.drop_last()[j]);
                }
            }
        }
    }
}

proof fn lemma_key_pos_distinct<KV, V>(s: Seq<(KV, V)>, k: KV, i: int)
    requires
        keys_distinct(s),
        0 <= i < s.len(),
        s[i].0 == k,
    ensures
        key_pos(s, k) == Some(i),
{
    lemma_key_pos(s, k);
    if let Some(j) = key_pos(s, k) {
        assert(j == i);
    }
}

/// A least-recently-used cache with room for `capacity` entries. The
/// entries are kept in one list, most recently used first, which is both
/// the key-to-value map and the recency queue: a `HashMap` of generic keys
/// has a specified meaning only for keys with a known hashing model, which
/// the string keys the cache is used with do not have.
pub struct LruCache<K: CacheKey, V> {
    capacity: usize,
    entries: Vec<(K, V)>,
    hits: usize,
    misses: usize,
}

impl<K: CacheKey, V> LruCache<K, V> {
    /// The entries, most recently used first.
    pub closed spec fn contents(&self) -> Seq<(K::V, V)> {
        self.entries@.map_values(|e: (K, V)| (e.0@, e.1))
    }

    /// The room of the cache.
    pub closed spec fn cap(&self) -> nat {
        self.capacity as nat
    }

    /// Lookups that found their key.
    pub closed spec fn hit_count(&self) -> nat {
        self.hits as nat
    }

    /// Lookups that did not.
    pub closed spec fn miss_count(&self) -> nat {
        self.misses as nat
    }

    /// Well-formed: no key occurs twice, and the entries fit the room.
    pub open spec fn wf(&self) -> bool {
        &&& keys_distinct(self.contents())
        &&& self.contents().len() <= room(self.cap())
    }

    /// An empty cache with room for `capacity` entries.
    pub fn new(capacity: usize) -> (r: Self)
        ensures
            r.contents() == Seq::<(K::V, V)>::empty(),
            r.wf(),
            r.cap() == capacity,
            r.hit_count() == 0,
            r.miss_count() == 0,
    {
        let r = LruCache { capacity, entries: Vec::new(), hits: 0, misses: 0 };
        assert(r.contents() =~= Seq::<(K::V, V)>::empty());
        r
    }

    fn position(&self, key: &K) -> (r: Option<usize>)
        requires
            self.wf(),
        ensures
            match r {
                Some(i) => key_pos(self.contents(), key@) == Some(i as int) && i < self.entries@.len(),
                None => key_pos(self.contents(), key@) is None,
            },
    {
        let mut i: usize = 0;
        while i < self.entries.len()
            invariant
                i <= self.entries@.len(),
                keys_distinct(self.contents()),
                forall|j: int| 0 <= j < i ==> self.contents()[j].0 != key@,
            decreases self.entries@.len() - i,
        {
            if self.entries[i].0.same_key(key) {
                proof { lemma_key_pos_distinct(self.contents(), key@, i as int); }
                return Some(i);
            }
            i = i + 1;
        }
        proof {
            lemma_key_pos(self.contents(), key@);
            if let Some(j) = key_pos(self.contents(), key@) {
                assert(self.contents()[j].0 == key@);
            }
        }
        None
    }

    /// Looks `key` up. When found, the entry becomes the most recently used
    /// and the lookup counts as a hit; otherwise it counts as a miss.
    pub fn get(&mut self, key: &K) -> (r: Option<&V>)
        requires
            old(self).wf(),
            old(self).hit_count() < usize::MAX,
            old(self).miss_count() < usize::MAX,
        ensures
            final(self).wf(),
            final(self).cap() == old(self).cap(),
            match key_pos(old(self).contents(), key@) {
                Some(i) => r matches Some(v) && *v == old(self).contents()[i].1
                    && final(self).contents() == after_hit(old(self).contents(), i)
                    && final(self).hit_count() == old(self).hit_count() + 1
                    && final(self).miss_count() == old(self).miss_count(),
                None => r is None && final(self).contents() == old(self).contents()
                    && final(self).hit_count() == old(self).hit_count()
                    && final(self).miss_count() == old(self).miss_count() + 1,
            },
    {
        match self.position(key) {
            Some(i) => {
                let ghost before = self.contents();
                self.hits = self.hits + 1;
                let e = self.entries.remove(i);
                self.entries.insert(0, e);
                assert(self.contents() =~= after_hit(before, i as int));
                assert(keys_distinct(self.contents())) by {
                    assert forall|a: int, b: int| 0 <= a < b < self.contents().len()
                        implies self.contents()[a].0 != self.contents()[b].0 by {
                        let s = before;
                        let ra = if a == 0 { i as int } else if a - 1 < i { a - 1 } else { a };
                        let rb = if b - 1 < i { b - 1 } else { b };
                        assert(self.contents()[a] == s[ra]);
                        assert(self.contents()[b] == s[rb]);
                    }
                }
                Some(&self.entries[0].1)
            },
            None => {
                self.misses = self.misses + 1;
                None
            },
        }
    }

    /// Stores `value` under `key`, as the most recently used entry. A new key
    /// in a full cache first drops the entry used longest ago.
    pub fn put(&mut self, key: K, value: V)
        requires
            old(self).wf(),
        ensures
            final(self).wf(),
            final(self).contents() == after_put(old(self).contents(), old(self).cap(), key@, value),
            final(self).cap() == old(self).cap(),
            final(self).hit_count() == old(self).hit_count(),
            final(self).miss_count() == old(self).miss_count(),
    {
        let ghost s = self.contents();
        let ghost kv = key@;
        let ghost rest = match key_pos(s, kv) {
            Some(i) => s.remove(i),
            None => if s.len() >= self.capacity && s.len() > 0 { s.drop_last() } else { s },
        };
        match self.position(&key) {
            Some(i) => {
                let _ = self.entries.remove(i);
                assert(self.contents() =~= s.remove(i as int));
            },
            None => {
                if self.entries.len() >= self.capacity {
                    let _ = self.entries.pop();
                    assert(self.contents() =~= rest);
                }
            },
        }
        assert(self.contents() == rest);
        proof {
            lemma_key_pos(s, kv);
            assert forall|j: int| 0 <= j < rest.len() implies rest[j].0 != kv by {
                match key_pos(s, kv) {
                    Some(i) => {
                        let r = if j < i { j } else { j + 1 };
                        assert(rest[j] == s[r]);
                    },
                    None => {
                        assert(rest[j] == s[j]);
                    },
                }
            }
        }
        self.entries.insert(0, (key, value));
        assert(self.contents() =~= seq![(kv, value)] + rest);
        assert(keys_distinct(self.contents())) by {
            assert forall|a: int, b: int| 0 <= a < b < self.contents().len()
                implies self.contents()[a].0 != self.contents()[b].0 by {
                if a > 0 {
                    match key_pos(s, kv) {
                        Some(i) => {
                            let ra = if a - 1 < i { a - 1 } else { a };
                            let rb = if b - 1 < i { b - 1 } else { b };
                            assert(rest[a - 1] == s[ra]);
                            assert(rest[b - 1] == s[rb]);
                        },
                        None => {
                            assert(rest[a - 1] == s[a - 1]);
                            assert(rest[b - 1] == s[b - 1]);
                        },
                    }
                }
            }
        }
    }

    /// Drops the entry for `key`, if any.
    pub fn invalidate(&mut self, key: &K)
        requires
            old(self).wf(),
        ensures
            final(self).wf(),
            final(self).contents() == after_invalidate(old(self).contents(), key@),
            final(self).cap() == old(self).cap(),
            final(self).hit_count() == old(self).hit_count(),
            final(self).miss_count() == old(self).miss_count(),
    {
        let ghost s = self.contents();
        if let Some(i) = self.position(key) {
            let _ = self.entries.remove(i);
            assert(self.contents() =~= s.remove(i as int));
            assert(keys_distinct(self.contents())) by {
                assert forall|a: int, b: int| 0 <= a < b < self.contents().len()
                    implies self.contents()[a].0 != self.contents()[b].0 by {
                    let ra = if a < i { a } else { a + 1 };
                    let rb = if b < i { b } else { b + 1 };
                    assert(self.contents()[a] == s[ra]);
                    assert(self.contents()[b] == s[rb]);
                }
            }
        }
    }

    /// Drops every entry and resets the counters.
    pub fn clear(&mut self)
        ensures
            final(self).wf(),
            final(self).contents() == Seq::<(K::V, V)>::empty(),
            final(self).cap() == old(self).cap(),
            final(self).hit_count() == 0,
            final(self).miss_count() == 0,
    {
        self.entries = Vec::new();
        self.hits = 0;
        self.misses = 0;
        assert(self.contents() =~= Seq::<(K::V, V)>::empty());
    }

    /// Number of entries held.
    pub fn _len(&self) -> (r: usize)
        ensures
            r == self.contents().len(),
    {
        self.entries.len()
    }

    /// Whether no entry is held.
    pub fn _is_empty(&self) -> (r: bool)
        ensures
            r == (self.contents().len() == 0),
    {
        self.entries.len() == 0
    }

    /// The counters and the number of entries held.
    pub fn stats(&self) -> (r: CacheStats)
        ensures
            r.hits == self.hit_count(),
            r.misses == self.miss_count(),
            r.size == self.contents().len(),
    {
        CacheStats { hits: self.hits, misses: self.misses, size: self.entries.len() }
    }
}

/// A value stored is what a lookup of its key gives back next.
pub proof fn lemma_get_after_put<KV, V>(s: Seq<(KV, V)>, cap: nat, k: KV, v: V)
    requires
        keys_distinct(s),
    ensures
        key_pos(after_put(s, cap, k, v), k) == Some(0int),
        after_put(s, cap, k, v)[0].1 == v,
        keys_distinct(after_put(s, cap, k, v)),
{
    lemma_key_pos(s, k);
    let rest = match key_pos(s, k) {
        Some(i) => s.remove(i),
        None => if s.len() >= cap && s.len() > 0 { s.drop_last() } else { s },
    };
    let r = after_put(s, cap, k, v);
    assert forall|j: int| 0 <= j < rest.len() implies rest[j].0 != k by {
        match key_pos(s, k) {
            Some(i) => {
                let x = if j < i { j } else { j + 1 };
                assert(rest[j] == s[x]);
            },
            None => {
                assert(rest[j] == s[j]);
            },
        }
    }
    assert forall|a: int, b: int| 0 <= a < b < r.len() implies r[a].0 != r[b].0 by {
        if a > 0 {
            match key_pos(s, k) {
                Some(i) => {
                    let ra = if a - 1 < i { a - 1 } else { a };
                    let rb = if b - 1 < i { b - 1 } else { b };
                    assert(rest[a - 1] == s[ra]);
                    assert(rest[b - 1] == s[rb]);
                },
                None => {
                    assert(rest[a - 1] == s[a - 1]);
                    assert(rest[b - 1] == s[b - 1]);
                },
            }
        } else {
            assert(r[b] == rest[b - 1]);
        }
    }
    lemma_key_pos_distinct(r, k, 0);
}

/// A cache never holds more entries than its room (or one, for a cache
/// without room): storing keeps the bound.
pub proof fn lemma_put_within_capacity<KV, V>(s: Seq<(KV, V)>, cap: nat, k: KV, v: V)
    requires
        s.len() <= room(cap),
    ensures
        after_put(s, cap, k, v).len() <= room(cap),
{
    lemma_key_pos(s, k);
}

/// The keys after a store: the key stored, and the keys held before but
/// the one dropped to make room (the entry used longest ago, when the key
/// is new and the cache is full).
pub proof fn lemma_put_keys<KV, V>(s: Seq<(KV, V)>, cap: nat, k: KV, v: V, x: KV)
    requires
        keys_distinct(s),
    ensures
        (key_pos(after_put(s, cap, k, v), x) is Some) <==> (x == k || (key_pos(s, x) is Some
            && !(key_pos(s, k) is None && s.len() >= cap && s.len() > 0 && s.last().0 == x))),
{
    lemma_key_pos(s, k);
    lemma_key_pos(s, x);
    let r = after_put(s, cap, k, v);
    lemma_key_pos(r, x);
    if x == k {
        assert(r[0].0 == k);
    } else if key_pos(s, x) is Some && !(key_pos(s, k) is None && s.len() >= cap && s.len() > 0 && s.last().0 == x) {
        let i = key_pos(s, x)->0;
        match key_pos(s, k) {
            Some(p) => {
                let j = if i < p { i + 1 } else { i };
                assert(r[j].0 == x);
            },
            None => {
                if s.len() >= cap && s.len() > 0 {
                    assert(i < s.len() - 1);
                }
                assert(r[i + 1].0 == x);
            },
        }
    }
    if key_pos(r, x) is Some && x != k {
        let j = key_pos(r, x)->0;
        assert(j > 0);
        match key_pos(s, k) {
            Some(p) => {
                let i = if j - 1 < p { j - 1 } else { j };
                assert(s[i].0 == x);
            },
            None => {
                assert(s[j - 1].0 == x);
                if s.len() >= cap && s.len() > 0 {
                    assert(j - 1 < s.len() - 1);
                    assert(s.last().0 != x);
                }
            },
        }
    }
}

/// The entry dropped to make room is the one used longest ago, and every
/// other entry stays.
pub proof fn lemma_put_evicts_least_recent<KV, V>(s: Seq<(KV, V)>, cap: nat, k: KV, v: V)
    requires
        key_pos(s, k) is None,
        s.len() >= cap,
        s.len() > 0,
    ensures
        after_put(s, cap, k, v) == seq![(k, v)] + s.drop_last(),
{
}

/// After dropping a key, a lookup of it finds nothing.
pub proof fn lemma_invalidate_removes<KV, V>(s: Seq<(KV, V)>, k: KV)
    requires
        keys_distinct(s),
    ensures
        key_pos(after_invalidate(s, k), k) is None,
{
    lemma_key_pos(s, k);
    let r = after_invalidate(s, k);
    if let Some(i) = key_pos(s, k) {
        assert forall|j: int| 0 <= j < r.len() implies r[j].0 != k by {
            let x = if j < i { j } else { j + 1 };
            assert(r[j] == s[x]);
        }
    }
    lemma_key_pos(r, k);
    if let Some(j) = key_pos(r, k) {
        assert(r[j].0 == k);
    }
}

} // verus!
