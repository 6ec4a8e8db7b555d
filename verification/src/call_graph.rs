//! The call graph as plain values (entity ids with their callees and
//! callers) and what is reachable in it.

use vstd::prelude::*;
use std::collections::{HashMap, HashSet};
use ahash::AHashSet;
use crate::id_tables::{id_set_contents, id_set_new, id_set_insert, id_set_contains};

verus! {

broadcast use vstd::std_specs::hash::group_hash_axioms;

/// A call graph: the entity ids, and for each (at the same position) the ids
/// it calls and the ids that call it, in the order the store lists them.
#[derive(Debug)]
pub struct CallGraph {
    /// Entity ids.
    pub nodes: Vec<i64>,
    /// Callees of each entity.
    pub outgoing: Vec<Vec<i64>>,
    /// Callers of each entity.
    pub incoming: Vec<Vec<i64>>,
}

/// Position of `v` among `ns`.
pub open spec fn node_pos(ns: Seq<i64>, v: i64) -> Option<int>
    decreases ns.len(),
{
    if ns.len() == 0 {
        None
    } else if ns.last() == v {
        Some(ns.len() - 1)
    } else {
        node_pos(ns.drop_last(), v)
    }
}

impl CallGraph {
    /// Well-formed: one callee list and one caller list per entity, no
    /// entity listed twice, and every callee and caller an entity.
    pub open spec fn wf(&self) -> bool {
        &&& self.outgoing@.len() == self.nodes@.len()
        &&& self.incoming@.len() == self.nodes@.len()
        &&& forall|i: int, j: int| 0 <= i < j < self.nodes@.len() ==> self.nodes@[i] != self.nodes@[j]
        &&& forall|i: int, k: int| 0 <= i < self.outgoing@.len() && 0 <= k < self.outgoing@[i]@.len()
            ==> self.nodes@.contains(#[trigger] self.outgoing@[i]@[k])
        &&& forall|i: int, k: int| 0 <= i < self.incoming@.len() && 0 <= k < self.incoming@[i]@.len()
            ==> self.nodes@.contains(#[trigger] self.incoming@[i]@[k])
    }

    /// The neighbours of `v` along calls (`forward`) or against them; none
    /// for an id that is not an entity of the graph.
    pub open spec fn next(&self, forward: bool, v: i64) -> Seq<i64> {
        match node_pos(self.nodes@, v) {
            Some(i) => if forward { self.outgoing@[i]@ } else { self.incoming@[i]@ },
            None => seq![],
        }
    }

    /// Whether the id after position `k` of `p` is a neighbour of the id at
    /// `k`.
    pub open spec fn walk_step(&self, forward: bool, p: Seq<i64>, k: int) -> bool {
        self.next(forward, p[k]).contains(p[k + 1])
    }

    /// Whether `p` is a walk: each id followed by one of its neighbours.
    pub open spec fn is_walk(&self, forward: bool, p: Seq<i64>) -> bool {
        &&& p.len() > 0
        &&& forall|k: int| 0 <= k < p.len() - 1 ==> #[trigger] self.walk_step(forward, p, k)
    }

    /// Whether `t` can be reached from `s` (along calls when `forward`,
    /// against them otherwise), `s` itself included.
    pub open spec fn reaches(&self, forward: bool, s: i64, t: i64) -> bool {
        exists|p: Seq<i64>| #[trigger] self.is_walk(forward, p) && p[0] == s && p.last() == t
    }

    /// Whether `t` can be reached from `s` in at most `d` calls (`s` itself
    /// in none).
    pub open spec fn reaches_within(&self, forward: bool, s: i64, t: i64, d: nat) -> bool {
        exists|p: Seq<i64>| #[trigger] self.is_walk(forward, p) && p[0] == s && p.last() == t && p.len() <= d + 1
    }

    /// Within `d` calls where `depth` is `Some(d)`, in any number otherwise.
    pub open spec fn reaches_up_to(&self, forward: bool, s: i64, t: i64, depth: Option<usize>) -> bool {
        match depth {
            Some(d) => self.reaches_within(forward, s, t, d as nat),
            None => self.reaches(forward, s, t),
        }
    }
}

pub proof fn lemma_node_pos<T>(ns: Seq<i64>, v: i64)
    ensures
        node_pos(ns, v) matches Some(i) ==> 0 <= i < ns.len() && ns[i] == v,
        node_pos(ns, v) is None ==> forall|j: int| 0 <= j < ns.len() ==> ns[j] != v,
    decreases ns.len(),
{
    if ns.len() > 0 && ns.last() != v {
        lemma_node_pos::<T>(ns.drop_last(), v);
        if node_pos(ns, v) is None {
            assert forall|j: int| 0 <= j < ns.len() implies ns[j] != v by {
                if j < ns.len() - 1 {
                    assert(ns[j] == ns.drop_last()[j]);
                }
            }
        }
    }
}

/// An id listed among the entities has a position.
pub proof fn lemma_pos_of_contained(ns: Seq<i64>, v: i64)
    requires
        ns.contains(v),
    ensures
        node_pos(ns, v) is Some,
{
    lemma_node_pos::<i64>(ns, v);
    let k = choose|k: int| 0 <= k < ns.len() && ns[k] == v;
}

proof fn lemma_node_pos_distinct(ns: Seq<i64>, v: i64, i: int)
    requires
        forall|a: int, b: int| 0 <= a < b < ns.len() ==> ns[a] != ns[b],
        0 <= i < ns.len(),
        ns[i] == v,
    ensures
        node_pos(ns, v) == Some(i),
{
    lemma_node_pos::<i64>(ns, v);
    if let Some(j) = node_pos(ns, v) {
        assert(i == j);
    }
}

/// A set that holds `s` and is closed under neighbours holds every id
/// reachable from `s`.
pub proof fn lemma_closed_holds_reachable(g: &CallGraph, forward: bool, s: i64, set: Set<i64>, t: i64)
    requires
        set.contains(s),
        forall|v: i64, w: i64| set.contains(v) && #[trigger] g.next(forward, v).contains(w) ==> set.contains(w),
        g.reaches(forward, s, t),
    ensures
        set.contains(t),
{
    let p = choose|p: Seq<i64>| #[trigger] g.is_walk(forward, p) && p[0] == s && p.last() == t;
    assert forall|k: int| 0 <= k < p.len() implies set.contains(#[trigger] p[k]) by {
        lemma_walk_prefix_in(g, forward, p, set, k);
    }
}

proof fn lemma_walk_prefix_in(g: &CallGraph, forward: bool, p: Seq<i64>, set: Set<i64>, k: int)
    requires
        g.is_walk(forward, p),
        set.contains(p[0]),
        forall|v: i64, w: i64| set.contains(v) && #[trigger] g.next(forward, v).contains(w) ==> set.contains(w),
        0 <= k < p.len(),
    ensures
        set.contains(p[k]),
    decreases k,
{
    if k > 0 {
        lemma_walk_prefix_in(g, forward, p, set, k - 1);
        assert(g.walk_step(forward, p, k - 1));
    }
}

/// A walk extended by a neighbour of its last id is a walk.
proof fn lemma_walk_extend(g: &CallGraph, forward: bool, p: Seq<i64>, w: i64)
    requires
        g.is_walk(forward, p),
        g.next(forward, p.last()).contains(w),
    ensures
        g.is_walk(forward, p.push(w)),
        p.push(w)[0] == p[0],
        p.push(w).last() == w,
{
    let q = p.push(w);
    assert forall|k: int| 0 <= k < q.len() - 1 implies #[trigger] g.walk_step(forward, q, k) by {
        if k < p.len() - 1 {
            assert(g.walk_step(forward, p, k));
            assert(q[k] == p[k] && q[k + 1] == p[k + 1]);
        }
    }
}

/// Every id reaches itself.
pub proof fn lemma_reaches_refl(g: &CallGraph, forward: bool, a: i64)
    ensures
        g.reaches(forward, a, a),
{
    let p = seq![a];
    assert(g.is_walk(forward, p));
}

/// A call from `a` to `b` lets `a` reach whatever `b` reaches.
pub proof fn lemma_reaches_prepend(g: &CallGraph, forward: bool, a: i64, b: i64, c: i64)
    requires
        g.next(forward, a).contains(b),
        g.reaches(forward, b, c),
    ensures
        g.reaches(forward, a, c),
{
    let p = choose|p: Seq<i64>| #[trigger] g.is_walk(forward, p) && p[0] == b && p.last() == c;
    let q = seq![a] + p;
    assert forall|k: int| 0 <= k < q.len() - 1 implies #[trigger] g.walk_step(forward, q, k) by {
        if k == 0 {
            assert(q[0] == a && q[1] == b);
        } else {
            assert(g.walk_step(forward, p, k - 1));
            assert(q[k] == p[k - 1] && q[k + 1] == p[k]);
        }
    }
    assert(g.is_walk(forward, q));
    assert(q.last() == p.last());
}

/// Reaching is transitive.
pub proof fn lemma_reaches_trans(g: &CallGraph, forward: bool, a: i64, b: i64, c: i64)
    requires
        g.reaches(forward, a, b),
        g.reaches(forward, b, c),
    ensures
        g.reaches(forward, a, c),
{
    let p = choose|p: Seq<i64>| #[trigger] g.is_walk(forward, p) && p[0] == a && p.last() == b;
    let q = choose|q: Seq<i64>| #[trigger] g.is_walk(forward, q) && q[0] == b && q.last() == c;
    let r = p + q.skip(1);
    assert forall|k: int| 0 <= k < r.len() - 1 implies #[trigger] g.walk_step(forward, r, k) by {
        if k < p.len() - 1 {
            assert(g.walk_step(forward, p, k));
            assert(r[k] == p[k] && r[k + 1] == p[k + 1]);
        } else if k == p.len() - 1 {
            assert(r[k] == b);
            assert(r[k + 1] == q[1]);
            assert(g.walk_step(forward, q, 0));
        } else {
            let j = k - p.len() + 1;
            assert(g.walk_step(forward, q, j));
            assert(r[k] == q[j] && r[k + 1] == q[j + 1]);
        }
    }
    assert(g.is_walk(forward, r));
    if q.len() > 1 {
        assert(r.last() == q.last());
    } else {
        assert(r =~= p);
    }
}

/// The position of each entity id.
pub fn node_index(g: &CallGraph) -> (m: HashMap<i64, usize>)
    requires
        g.wf(),
    ensures
        forall|v: i64| #[trigger] m@.contains_key(v) <==> node_pos(g.nodes@, v) is Some,
        forall|v: i64| #[trigger] m@.contains_key(v) ==> node_pos(g.nodes@, v) == Some(m@[v] as int),
{
    let mut m: HashMap<i64, usize> = HashMap::new();
    let mut i: usize = 0;
    while i < g.nodes.len()
        invariant
            g.wf(),
            i <= g.nodes@.len(),
            forall|v: i64| #[trigger] m@.contains_key(v) <==> exists|j: int| 0 <= j < i && g.nodes@[j] == v,
            forall|v: i64| #[trigger] m@.contains_key(v) ==> (m@[v] as int) < i && g.nodes@[m@[v] as int] == v,
        decreases g.nodes@.len() - i,
    {
        m.insert(g.nodes[i], i);
        i = i + 1;
    }
    proof {
        assert forall|v: i64| #[trigger] m@.contains_key(v) <==> node_pos(g.nodes@, v) is Some by {
            lemma_node_pos::<i64>(g.nodes@, v);
            if node_pos(g.nodes@, v) is Some {
                let j = node_pos(g.nodes@, v).unwrap();
                assert(g.nodes@[j] == v);
            }
        }
        assert forall|v: i64| #[trigger] m@.contains_key(v) implies node_pos(g.nodes@, v) == Some(m@[v] as int) by {
            lemma_node_pos_distinct(g.nodes@, v, m@[v] as int);
        }
    }
    m
}

/// The neighbours of `v` (see `CallGraph::next`).
pub(crate) fn neighbours<'a>(g: &'a CallGraph, index: &HashMap<i64, usize>, forward: bool, v: i64) -> (r: &'a Vec<i64>)
    requires
        g.wf(),
        forall|x: i64| #[trigger] index@.contains_key(x) <==> node_pos(g.nodes@, x) is Some,
        forall|x: i64| #[trigger] index@.contains_key(x) ==> node_pos(g.nodes@, x) == Some(index@[x] as int),
        node_pos(g.nodes@, v) is Some,
    ensures
        r@ == g.next(forward, v),
{
    let i = *index.get(&v).unwrap();
    proof {
        lemma_node_pos::<i64>(g.nodes@, v);
    }
    if forward { &g.outgoing[i] } else { &g.incoming[i] }
}

/// Whether `v` is among `xs`.
pub fn list_has(xs: &Vec<i64>, v: i64) -> (r: bool)
    ensures
        r == xs@.contains(v),
{
    let mut i: usize = 0;
    while i < xs.len()
        invariant
            i <= xs@.len(),
            forall|k: int| 0 <= k < i ==> xs@[k] != v,
        decreases xs@.len() - i,
    {
        if xs[i] == v {
            assert(xs@[i as int] == v);
            return true;
        }
        i = i + 1;
    }
    false
}

/// Whether `v` calls itself directly.
pub fn calls_itself(g: &CallGraph, index: &HashMap<i64, usize>, v: i64) -> (r: bool)
    requires
        g.wf(),
        forall|x: i64| #[trigger] index@.contains_key(x) <==> node_pos(g.nodes@, x) is Some,
        forall|x: i64| #[trigger] index@.contains_key(x) ==> node_pos(g.nodes@, x) == Some(index@[x] as int),
    ensures
        r == g.next(true, v).contains(v),
{
    if index.contains_key(&v) {
        let ns = neighbours(g, index, true, v);
        list_has(ns, v)
    } else {
        false
    }
}

/// Whether no id occurs twice in `ids`.
pub fn ids_distinct(ids: &Vec<i64>) -> (r: bool)
    ensures
        r == (forall|a: int, b: int| 0 <= a < b < ids@.len() ==> ids@[a] != ids@[b]),
{
    let mut seen: HashSet<i64> = HashSet::new();
    let mut i: usize = 0;
    while i < ids.len()
        invariant
            i <= ids@.len(),
            forall|x: i64| #[trigger] seen@.contains(x) <==> (exists|a: int| 0 <= a < i && ids@[a] == x),
            forall|a: int, b: int| 0 <= a < b < i ==> ids@[a] != ids@[b],
        decreases ids@.len() - i,
    {
        let x = ids[i];
        if seen.contains(&x) {
            proof {
                let a = choose|a: int| 0 <= a < i && ids@[a] == x;
                assert(ids@[a] == ids@[i as int]);
            }
            return false;
        }
        seen.insert(x);
        proof {
            assert forall|y: i64| #[trigger] seen@.contains(y) <==> (exists|a: int| 0 <= a < i + 1 && ids@[a] == y) by {
                if y == x {
                    assert(ids@[i as int] == y);
                }
            }
            assert forall|a: int, b: int| 0 <= a < b < i + 1 implies ids@[a] != ids@[b] by {
                if b == i && ids@[a] == ids@[b] {
                    assert(seen@.contains(ids@[a]) || !seen@.contains(x));
                }
            }
        }
        i = i + 1;
    }
    true
}

/// Whether every id of every list is among `nodes`.
fn lists_within(lists: &Vec<Vec<i64>>, nodes: &Vec<i64>) -> (r: bool)
    ensures
        r == (forall|i: int, k: int| 0 <= i < lists@.len() && 0 <= k < lists@[i]@.len()
            ==> nodes@.contains(#[trigger] lists@[i]@[k])),
{
    let mut known: HashSet<i64> = HashSet::new();
    let mut n: usize = 0;
    while n < nodes.len()
        invariant
            n <= nodes@.len(),
            forall|x: i64| #[trigger] known@.contains(x) <==> (exists|a: int| 0 <= a < n && nodes@[a] == x),
        decreases nodes@.len() - n,
    {
        known.insert(nodes[n]);
        proof {
            assert forall|y: i64| #[trigger] known@.contains(y) <==> (exists|a: int| 0 <= a < n + 1 && nodes@[a] == y) by {
                if y == nodes@[n as int] {
                    assert(nodes@[n as int] == y);
                }
            }
        }
        n = n + 1;
    }
    let mut i: usize = 0;
    while i < lists.len()
        invariant
            i <= lists@.len(),
            forall|x: i64| #[trigger] known@.contains(x) <==> nodes@.contains(x),
            forall|a: int, k: int| 0 <= a < i && 0 <= k < lists@[a]@.len() ==> nodes@.contains(#[trigger] lists@[a]@[k]),
        decreases lists@.len() - i,
    {
        let list = &lists[i];
        let mut k: usize = 0;
        while k < list.len()
            invariant
                i < lists@.len(),
                list == &lists@[i as int],
                k <= list@.len(),
                forall|x: i64| #[trigger] known@.contains(x) <==> nodes@.contains(x),
                forall|m: int| 0 <= m < k ==> nodes@.contains(#[trigger] list@[m]),
            decreases list@.len() - k,
        {
            if !known.contains(&list[k]) {
                return false;
            }
            k = k + 1;
        }
        i = i + 1;
    }
    true
}

impl CallGraph {
    /// Whether the graph is well formed (see `wf`): one list of callees and
    /// one of callers per entity, no entity twice, every neighbour an entity.
    pub fn is_well_formed(&self) -> (r: bool)
        ensures
            r == self.wf(),
    {
        self.outgoing.len() == self.nodes.len() && self.incoming.len() == self.nodes.len()
            && ids_distinct(&self.nodes) && lists_within(&self.outgoing, &self.nodes)
            && lists_within(&self.incoming, &self.nodes)
    }
}

/// The ids reachable from `start` (along calls when `forward`, against them
/// otherwise), `start` included, each once, in breadth-first order.
pub fn reachable_from(g: &CallGraph, start: i64, forward: bool) -> (r: Vec<i64>)
    requires
        g.wf(),
    ensures
        r@.len() > 0 && r@[0] == start,
        forall|i: int, j: int| 0 <= i < j < r@.len() ==> r@[i] != r@[j],
        forall|t: i64| r@.contains(t) <==> g.reaches(forward, start, t),
{
    let index = node_index(g);
    let mut visited: AHashSet<i64> = id_set_new();
    let mut order: Vec<i64> = Vec::new();
    id_set_insert(&mut visited, start);
    order.push(start);
    proof {
        let p = seq![start];
        assert(g.is_walk(forward, p));
        assert forall|x: i64| #[trigger] id_set_contents(visited).contains(x) <==> order@.contains(x) by {
            if x == start {
                assert(order@[0] == start);
            }
        }
    }
    let mut head: usize = 0;
    while head < order.len()
        invariant
            g.wf(),
            forall|x: i64| #[trigger] index@.contains_key(x) <==> node_pos(g.nodes@, x) is Some,
            forall|x: i64| #[trigger] index@.contains_key(x) ==> node_pos(g.nodes@, x) == Some(index@[x] as int),
            head <= order@.len(),
            order@.len() > 0 && order@[0] == start,
            forall|x: i64| #[trigger] id_set_contents(visited).contains(x) <==> order@.contains(x),
            forall|i: int, j: int| 0 <= i < j < order@.len() ==> order@[i] != order@[j],
            forall|k: int| 0 <= k < order@.len() ==> g.reaches(forward, start, #[trigger] order@[k]),
            forall|k: int, w: i64| 0 <= k < head && #[trigger] g.next(forward, order@[k]).contains(w) ==> id_set_contents(visited).contains(w),
        decreases g.nodes@.len() + 1 - head, order@.len() - head,
    {
        let v = order[head];
        if index.contains_key(&v) {
            let ns = neighbours(g, &index, forward, v);
            let mut j: usize = 0;
            while j < ns.len()
                invariant
                    g.wf(),
                    head < order@.len(),
                    v == order@[head as int],
                    ns@ == g.next(forward, v),
                    j <= ns@.len(),
                    order@.len() > 0 && order@[0] == start,
                    forall|x: i64| #[trigger] id_set_contents(visited).contains(x) <==> order@.contains(x),
                    forall|i: int, k: int| 0 <= i < k < order@.len() ==> order@[i] != order@[k],
                    forall|k: int| 0 <= k < order@.len() ==> g.reaches(forward, start, #[trigger] order@[k]),
                    forall|k: int, w: i64| 0 <= k < head && #[trigger] g.next(forward, order@[k]).contains(w) ==> id_set_contents(visited).contains(w),
                    forall|a: int| 0 <= a < j ==> id_set_contents(visited).contains(#[trigger] ns@[a]),
                decreases ns@.len() - j,
            {
                let w = ns[j];
                if !id_set_contains(&visited, w) {
                    proof {
                        assert(g.reaches(forward, start, v));
                        let p = choose|p: Seq<i64>| #[trigger] g.is_walk(forward, p) && p[0] == start && p.last() == v;
                        assert(ns@.contains(w)) by {
                            assert(ns@[j as int] == w);
                        }
                        lemma_walk_extend(g, forward, p, w);
                        assert(g.is_walk(forward, p.push(w)));
                    }
                    let ghost before = order@;
                    id_set_insert(&mut visited, w);
                    order.push(w);
                    proof {
                        assert forall|x: i64| #[trigger] id_set_contents(visited).contains(x) <==> order@.contains(x) by {
                            if x == w {
                                assert(order@[order@.len() - 1] == w);
                            } else if before.contains(x) {
                                let q = choose|q: int| 0 <= q < before.len() && before[q] == x;
                                assert(order@[q] == x);
                            }
                        }
                    }
                }
                j = j + 1;
            }
            proof {
                assert forall|w: i64| #[trigger] g.next(forward, v).contains(w) implies id_set_contents(visited).contains(w) by {
                    let a = choose|a: int| 0 <= a < ns@.len() && ns@[a] == w;
                }
            }
        } else {
            proof {
                assert(g.next(forward, v) =~= Seq::<i64>::empty());
            }
        }
        proof {
            lemma_distinct_len_bound(g, forward, start, order@);
        }
        head = head + 1;
    }
    proof {
        assert forall|t: i64| order@.contains(t) <==> g.reaches(forward, start, t) by {
            if g.reaches(forward, start, t) {
                assert forall|x: i64, w: i64| id_set_contents(visited).contains(x) && #[trigger] g.next(forward, x).contains(w) implies id_set_contents(visited).contains(w) by {
                    let k = choose|k: int| 0 <= k < order@.len() && order@[k] == x;
                }
                assert(id_set_contents(visited).contains(start)) by {
                    assert(order@[0] == start);
                }
                lemma_closed_holds_reachable(g, forward, start, id_set_contents(visited), t);
            }
            if order@.contains(t) {
                let k = choose|k: int| 0 <= k < order@.len() && order@[k] == t;
            }
        }
    }
    order
}

/// Whether `y` is one call from an id of `src`.
pub open spec fn one_call_from(g: &CallGraph, forward: bool, src: Seq<i64>, y: i64) -> bool {
    exists|x: i64| #[trigger] g.next(forward, x).contains(y) && src.contains(x)
}

/// One more call: what is within `k + 1` calls is within `k`, or one call
/// from something within `k`; and each of those is within `k + 1`.
pub proof fn lemma_within_step(g: &CallGraph, forward: bool, s: i64, t: i64, k: nat)
    ensures
        g.reaches_within(forward, s, t, k + 1) <==> (g.reaches_within(forward, s, t, k)
            || exists|x: i64| #[trigger] g.next(forward, x).contains(t) && g.reaches_within(forward, s, x, k)),
{
    if g.reaches_within(forward, s, t, k + 1) && !g.reaches_within(forward, s, t, k) {
        let p = choose|p: Seq<i64>| #[trigger] g.is_walk(forward, p) && p[0] == s && p.last() == t && p.len() <= k + 2;
        assert(p.len() == k + 2);
        let q = p.drop_last();
        assert(g.walk_step(forward, p, p.len() - 2));
        assert forall|j: int| 0 <= j < q.len() - 1 implies #[trigger] g.walk_step(forward, q, j) by {
            assert(g.walk_step(forward, p, j));
        }
        assert(g.is_walk(forward, q));
        let x = q.last();
        assert(g.next(forward, x).contains(t));
        assert(g.reaches_within(forward, s, x, k));
    }
    if exists|x: i64| #[trigger] g.next(forward, x).contains(t) && g.reaches_within(forward, s, x, k) {
        let x = choose|x: i64| #[trigger] g.next(forward, x).contains(t) && g.reaches_within(forward, s, x, k);
        let p = choose|p: Seq<i64>| #[trigger] g.is_walk(forward, p) && p[0] == s && p.last() == x && p.len() <= k + 1;
        lemma_walk_extend(g, forward, p, t);
        assert(g.is_walk(forward, p.push(t)));
    }
    if g.reaches_within(forward, s, t, k) {
        let p = choose|p: Seq<i64>| #[trigger] g.is_walk(forward, p) && p[0] == s && p.last() == t && p.len() <= k + 1;
        assert(g.is_walk(forward, p));
    }
}

/// Within some number of calls is reached.
pub proof fn lemma_within_reaches(g: &CallGraph, forward: bool, s: i64, t: i64, k: nat)
    requires
        g.reaches_within(forward, s, t, k),
    ensures
        g.reaches(forward, s, t),
{
    let p = choose|p: Seq<i64>| #[trigger] g.is_walk(forward, p) && p[0] == s && p.last() == t && p.len() <= k + 1;
    assert(g.is_walk(forward, p));
}

/// Within fewer calls is within more.
pub proof fn lemma_within_mono(g: &CallGraph, forward: bool, s: i64, t: i64, k: nat, d: nat)
    requires
        g.reaches_within(forward, s, t, k),
        k <= d,
    ensures
        g.reaches_within(forward, s, t, d),
{
    let p = choose|p: Seq<i64>| #[trigger] g.is_walk(forward, p) && p[0] == s && p.last() == t && p.len() <= k + 1;
    assert(g.is_walk(forward, p));
}

/// The ids reachable from `start` in at most `depth` calls (along them when
/// `forward`, against them otherwise), `start` included, each once, nearer
/// ones first.
pub fn reachable_within(g: &CallGraph, start: i64, forward: bool, depth: usize) -> (r: Vec<i64>)
    requires
        g.wf(),
    ensures
        r@.len() > 0 && r@[0] == start,
        r@.no_duplicates(),
        forall|t: i64| r@.contains(t) <==> g.reaches_within(forward, start, t, depth as nat),
{
    let index = node_index(g);
    let mut visited: AHashSet<i64> = id_set_new();
    let mut order: Vec<i64> = Vec::new();
    id_set_insert(&mut visited, start);
    order.push(start);
    proof {
        assert(g.is_walk(forward, seq![start]));
        assert forall|t: i64| #[trigger] order@.contains(t) <==> g.reaches_within(forward, start, t, 0) by {
            if order@.contains(t) {
                assert(order@[0] == start);
                assert(g.is_walk(forward, seq![start]));
            }
            if g.reaches_within(forward, start, t, 0) {
                let p = choose|p: Seq<i64>| #[trigger] g.is_walk(forward, p) && p[0] == start && p.last() == t && p.len() <= 1;
                assert(order@[0] == t);
            }
        }
        assert forall|x: i64| #[trigger] id_set_contents(visited).contains(x) <==> order@.contains(x) by {
            if x == start {
                assert(order@[0] == start);
            }
        }
    }
    let mut fs: usize = 0;
    let mut k: usize = 0;
    while k < depth
        invariant_except_break
            k <= depth,
        invariant
            g.wf(),
            forall|x: i64| #[trigger] index@.contains_key(x) <==> node_pos(g.nodes@, x) is Some,
            forall|x: i64| #[trigger] index@.contains_key(x) ==> node_pos(g.nodes@, x) == Some(index@[x] as int),
            order@.len() > 0 && order@[0] == start,
            order@.no_duplicates(),
            fs <= order@.len(),
            forall|x: i64| #[trigger] id_set_contents(visited).contains(x) <==> order@.contains(x),
            forall|t: i64| #[trigger] order@.contains(t) <==> g.reaches_within(forward, start, t, k as nat),
            forall|q: int, w: i64| 0 <= q < fs && #[trigger] g.next(forward, order@[q]).contains(w) ==> order@.contains(w),
        ensures
            forall|t: i64| #[trigger] order@.contains(t) <==> g.reaches_within(forward, start, t, depth as nat),
            order@.len() > 0 && order@[0] == start,
            order@.no_duplicates(),
        decreases depth - k,
    {
        let end = order.len();
        if fs == end {
            proof {
                assert forall|t: i64| #[trigger] order@.contains(t) <==> g.reaches_within(forward, start, t, depth as nat) by {
                    if order@.contains(t) {
                        lemma_within_mono(g, forward, start, t, k as nat, depth as nat);
                    }
                    if g.reaches_within(forward, start, t, depth as nat) {
                        lemma_within_reaches(g, forward, start, t, depth as nat);
                        assert forall|x: i64, w: i64| order@.to_set().contains(x) && #[trigger] g.next(forward, x).contains(w) implies order@.to_set().contains(w) by {
                            let q = choose|q: int| 0 <= q < order@.len() && order@[q] == x;
                            assert(g.next(forward, order@[q]).contains(w));
                        }
                        assert(order@.to_set().contains(start)) by {
                            assert(order@[0] == start);
                        }
                        lemma_closed_holds_reachable(g, forward, start, order@.to_set(), t);
                    }
                }
            }
            break;
        }
        let ghost old_order = order@;
        let mut q: usize = fs;
        while q < end
            invariant
                g.wf(),
                forall|x: i64| #[trigger] index@.contains_key(x) <==> node_pos(g.nodes@, x) is Some,
                forall|x: i64| #[trigger] index@.contains_key(x) ==> node_pos(g.nodes@, x) == Some(index@[x] as int),
                fs <= q <= end,
                end == old_order.len(),
                order@.len() >= end,
                order@.take(end as int) == old_order,
                order@.len() > 0 && order@[0] == start,
                order@.no_duplicates(),
                forall|x: i64| #[trigger] id_set_contents(visited).contains(x) <==> order@.contains(x),
                forall|t: i64| #[trigger] old_order.contains(t) <==> g.reaches_within(forward, start, t, k as nat),
                forall|j: int| end <= j < order@.len() ==> #[trigger] one_call_from(g, forward, old_order, order@[j]),
                forall|a: int, w: i64| 0 <= a < q && #[trigger] g.next(forward, order@[a]).contains(w) ==> order@.contains(w),
            decreases end - q,
        {
            let v = order[q];
            proof {
                assert(old_order[q as int] == v);
            }
            let empty: Vec<i64> = Vec::new();
            let ns: &Vec<i64> = if index.contains_key(&v) { neighbours(g, &index, forward, v) } else { &empty };
            proof {
                if !index@.contains_key(v) {
                    assert(g.next(forward, v) =~= Seq::<i64>::empty());
                }
            }
            let mut j: usize = 0;
            while j < ns.len()
                invariant
                    fs <= q < end,
                    end == old_order.len(),
                    order@.len() >= end,
                    order@.take(end as int) == old_order,
                    v == old_order[q as int],
                    ns@ == g.next(forward, v),
                    j <= ns@.len(),
                    order@.len() > 0 && order@[0] == start,
                    order@.no_duplicates(),
                    forall|x: i64| #[trigger] id_set_contents(visited).contains(x) <==> order@.contains(x),
                    forall|j2: int| end <= j2 < order@.len() ==> #[trigger] one_call_from(g, forward, old_order, order@[j2]),
                    forall|a: int, w: i64| 0 <= a < q && #[trigger] g.next(forward, order@[a]).contains(w) ==> order@.contains(w),
                    forall|b: int| 0 <= b < j ==> order@.contains(#[trigger] ns@[b]),
                decreases ns@.len() - j,
            {
                let w = ns[j];
                if !id_set_contains(&visited, w) {
                    let ghost before = order@;
                    id_set_insert(&mut visited, w);
                    order.push(w);
                    proof {
                        assert(ns@.contains(w)) by {
                            assert(ns@[j as int] == w);
                        }
                        assert(old_order.contains(v)) by {
                            assert(old_order[q as int] == v);
                        }
                        assert forall|x: i64| #[trigger] id_set_contents(visited).contains(x) <==> order@.contains(x) by {
                            if x == w {
                                assert(order@[order@.len() - 1] == w);
                            } else if before.contains(x) {
                                let i0 = choose|i0: int| 0 <= i0 < before.len() && before[i0] == x;
                                assert(order@[i0] == x);
                            }
                        }
                        assert(order@.take(end as int) =~= before.take(end as int));
                        assert forall|j2: int| end <= j2 < order@.len() implies #[trigger] one_call_from(g, forward, old_order, order@[j2]) by {
                            if j2 < before.len() {
                                assert(order@[j2] == before[j2]);
                            } else {
                                assert(order@[j2] == w);
                                assert(g.next(forward, v).contains(w));
                            }
                        }
                        assert forall|a: int, w2: i64| 0 <= a < q && #[trigger] g.next(forward, order@[a]).contains(w2) implies order@.contains(w2) by {
                            assert(order@[a] == before[a]);
                            if before.contains(w2) {
                                let i0 = choose|i0: int| 0 <= i0 < before.len() && before[i0] == w2;
                                assert(order@[i0] == w2);
                            }
                        }
                        assert forall|b: int| 0 <= b < j + 1 implies order@.contains(#[trigger] ns@[b]) by {
                            if b == j {
                                assert(order@[order@.len() - 1] == w);
                            } else {
                                let i0 = choose|i0: int| 0 <= i0 < before.len() && before[i0] == ns@[b];
                                assert(order@[i0] == ns@[b]);
                            }
                        }
                    }
                }
                j = j + 1;
            }
            proof {
                assert forall|a: int, w: i64| 0 <= a < q + 1 && #[trigger] g.next(forward, order@[a]).contains(w) implies order@.contains(w) by {
                    if a == q {
                        assert(order@[a] == old_order[q as int]);
                        let b = choose|b: int| 0 <= b < ns@.len() && ns@[b] == w;
                    }
                }
            }
            q = q + 1;
        }
        proof {
            let nk = (k + 1) as nat;
            assert forall|t: i64| #[trigger] order@.contains(t) <==> g.reaches_within(forward, start, t, nk) by {
                lemma_within_step(g, forward, start, t, k as nat);
                if order@.contains(t) {
                    let i0 = choose|i0: int| 0 <= i0 < order@.len() && order@[i0] == t;
                    if i0 < end {
                        assert(order@.take(end as int)[i0] == order@[i0]);
                        assert(old_order[i0] == t);
                        assert(old_order.contains(t));
                        assert(g.reaches_within(forward, start, t, k as nat));
                    } else {
                        assert(one_call_from(g, forward, old_order, order@[i0]));
                        let x = choose|x: i64| #[trigger] g.next(forward, x).contains(order@[i0]) && old_order.contains(x);
                        assert(g.reaches_within(forward, start, x, k as nat));
                        assert(g.next(forward, x).contains(t));
                    }
                    assert(g.reaches_within(forward, start, t, nk));
                }
                if g.reaches_within(forward, start, t, nk) {
                    if g.reaches_within(forward, start, t, k as nat) {
                        assert(old_order.contains(t));
                        let i0 = choose|i0: int| 0 <= i0 < old_order.len() && old_order[i0] == t;
                        assert(order@.take(end as int)[i0] == order@[i0]);
                    } else {
                        let x = choose|x: i64| #[trigger] g.next(forward, x).contains(t) && g.reaches_within(forward, start, x, k as nat);
                        assert(old_order.contains(x));
                        let i0 = choose|i0: int| 0 <= i0 < old_order.len() && old_order[i0] == x;
                        assert(order@.take(end as int)[i0] == order@[i0]);
                        assert(g.next(forward, order@[i0]).contains(t));
                    }
                }
            }
        }
        fs = end;
        k = k + 1;
    }
    order
}

/// A walk from `start` ends at `start` or at an entity of the graph, so the
/// distinct ids reachable are at most the entities and `start`.
proof fn lemma_distinct_len_bound(g: &CallGraph, forward: bool, start: i64, order: Seq<i64>)
    requires
        g.wf(),
        order.len() > 0 && order[0] == start,
        forall|i: int, j: int| 0 <= i < j < order.len() ==> order[i] != order[j],
        forall|k: int| 0 <= k < order.len() ==> g.reaches(forward, start, #[trigger] order[k]),
    ensures
        order.len() <= g.nodes@.len() + 1,
{
    // every id after the first is a neighbour of some id, hence an entity
    let rest = order.drop_first();
    assert forall|k: int| 0 <= k < rest.len() implies g.nodes@.contains(#[trigger] rest[k]) by {
        let t = rest[k];
        assert(order[k + 1] == t);
        assert(g.reaches(forward, start, t));
        let p = choose|p: Seq<i64>| #[trigger] g.is_walk(forward, p) && p[0] == start && p.last() == t;
        assert(t != start) by {
            assert(order[0] != order[k + 1]);
        }
        assert(p.len() > 1);
        assert(g.walk_step(forward, p, p.len() - 2));
        lemma_neighbour_is_node(g, forward, p[p.len() - 2], t);
    }
    lemma_distinct_subset_len(rest, g.nodes@);
}

/// A neighbour listed for an entity is an entity of the graph.
proof fn lemma_neighbour_is_node(g: &CallGraph, forward: bool, v: i64, w: i64)
    requires
        g.wf(),
        g.next(forward, v).contains(w),
    ensures
        g.nodes@.contains(w),
{
    lemma_node_pos::<i64>(g.nodes@, v);
    let i = node_pos(g.nodes@, v).unwrap();
    let k = choose|k: int| 0 <= k < g.next(forward, v).len() && g.next(forward, v)[k] == w;
    if forward {
        assert(g.outgoing@[i]@[k] == w);
    } else {
        assert(g.incoming@[i]@[k] == w);
    }
}

proof fn lemma_distinct_subset_len(a: Seq<i64>, b: Seq<i64>)
    requires
        forall|i: int, j: int| 0 <= i < j < a.len() ==> a[i] != a[j],
        forall|k: int| 0 <= k < a.len() ==> b.contains(#[trigger] a[k]),
    ensures
        a.len() <= b.len(),
{
    let sa = a.to_set();
    let sb = b.to_set();
    a.unique_seq_to_set();
    assert(sa.subset_of(sb)) by {
        assert forall|x: i64| sa.contains(x) implies sb.contains(x) by {
            let k = choose|k: int| 0 <= k < a.len() && a[k] == x;
        }
    }
    vstd::set_lib::lemma_len_subset(sa, sb);
    b.lemma_cardinality_of_set();
}

} // verus!
