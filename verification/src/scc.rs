//! Strongly connected components of the call graph (Tarjan's algorithm),
//! and the graph of components that results from collapsing each one to a
//! single node.

use vstd::prelude::*;
use std::collections::{HashMap, HashSet};
use ahash::AHashMap;
use crate::id_tables::{pos_map_contents, pos_map_new, pos_map_insert, pos_map_get, pos_map_contains, id_map_contents, id_map_new, id_map_insert, id_map_get};
use crate::call_graph::{CallGraph, node_index, node_pos, lemma_reaches_refl, lemma_reaches_prepend, lemma_reaches_trans};

verus! {

broadcast use vstd::std_specs::hash::group_hash_axioms;

/// The components found, each with its members in the order they left the
/// stack, and for each member the position of its component.
#[derive(Debug)]
pub struct SccResult {
    /// Components, in the order they were completed.
    pub components: Vec<Vec<i64>>,
    /// Position of the component of each member.
    pub node_to_component: AHashMap<i64, usize>,
}

/// What the search has built so far.
struct Tarjan {
    index: usize,
    stack: Vec<i64>,
    on_stack: HashSet<i64>,
    indices: AHashMap<i64, usize>,
    lowlinks: AHashMap<i64, usize>,
    components: Vec<Vec<i64>>,
    node_to_component: AHashMap<i64, usize>,
}

/// What every component found satisfies: it is not empty, its members are
/// entities, and each member is recorded under its component's position.
pub open spec fn components_ok(g: &CallGraph, cs: Seq<Vec<i64>>, ntc: Map<i64, usize>) -> bool {
    &&& forall|i: int| 0 <= i < cs.len() ==> (#[trigger] cs[i])@.len() > 0 && cs[i]@.no_duplicates()
    &&& forall|i: int, k: int| 0 <= i < cs.len() && 0 <= k < cs[i]@.len() ==> g.nodes@.contains(#[trigger] cs[i]@[k])
    &&& forall|i: int, k: int| 0 <= i < cs.len() && 0 <= k < cs[i]@.len()
        ==> ntc.contains_key(#[trigger] cs[i]@[k]) && ntc[cs[i]@[k]] == i
}

/// The components in reverse topological order: every entity is in a
/// component, the component recorded for an id holds it, and each call goes
/// from a component to the same one or to one completed before it.
pub open spec fn scc_ordered(g: &CallGraph, cs: Seq<Vec<i64>>, ntc: Map<i64, usize>) -> bool {
    &&& forall|x: i64| #[trigger] g.nodes@.contains(x) ==> ntc.contains_key(x)
    &&& forall|x: i64| #[trigger] ntc.contains_key(x) ==> ntc[x] < cs.len() && cs[ntc[x] as int]@.contains(x)
    &&& forall|u: i64, w: i64| #![trigger g.next(true, u).contains(w)]
        ntc.contains_key(u) && g.next(true, u).contains(w) ==> ntc.contains_key(w) && ntc[w] <= ntc[u]
}

impl SccResult {
    /// The component position recorded for each entity.
    pub open spec fn ntc(&self) -> Map<i64, usize> {
        pos_map_contents(self.node_to_component)
    }
}

impl Tarjan {
    /// The discovery index of each entity visited.
    spec fn idx(&self) -> Map<i64, usize> {
        pos_map_contents(self.indices)
    }

    /// The lowest index reached from each entity visited.
    spec fn low(&self) -> Map<i64, usize> {
        pos_map_contents(self.lowlinks)
    }

    /// The component position of each entity whose component is done.
    spec fn ntc(&self) -> Map<i64, usize> {
        pos_map_contents(self.node_to_component)
    }

    /// What holds throughout the search, but for the record of the
    /// component being completed.
    spec fn inv_core(&self, g: &CallGraph) -> bool {
        &&& self.idx().dom().finite()
        &&& self.index as nat == self.idx().dom().len()
        &&& self.low().dom() == self.idx().dom()
        &&& forall|x: i64| #[trigger] self.idx().contains_key(x) ==> g.nodes@.contains(x)
        &&& forall|k: int| 0 <= k < self.stack@.len() ==> g.nodes@.contains(#[trigger] self.stack@[k])
        &&& components_ok(g, self.components@, self.ntc())
        &&& forall|k: int| 0 <= k < self.stack@.len() ==> self.idx().contains_key(#[trigger] self.stack@[k])
        &&& forall|i: int, m: int| 0 <= i < self.components@.len() && 0 <= m < self.components@[i]@.len()
            ==> self.idx().contains_key(#[trigger] self.components@[i]@[m])
        &&& forall|a: int, b: int| 0 <= a < b < self.stack@.len() ==> self.stack@[a] != self.stack@[b]
        &&& forall|k: int, i: int, m: int| 0 <= k < self.stack@.len() && 0 <= i < self.components@.len()
            && 0 <= m < self.components@[i]@.len() ==> #[trigger] self.stack@[k] != #[trigger] self.components@[i]@[m]
        &&& forall|x: i64| #[trigger] self.on_stack@.contains(x) <==> self.stack@.contains(x)
        &&& forall|a: int, b: int| 0 <= a < b < self.stack@.len()
            ==> self.idx()[#[trigger] self.stack@[a]] < self.idx()[#[trigger] self.stack@[b]]
        &&& forall|x: i64| #[trigger] self.idx().contains_key(x)
            ==> self.idx()[x] < self.index && self.low()[x] <= self.idx()[x]
        &&& forall|k: int| 0 <= k < self.stack@.len()
            ==> self.low()[#[trigger] self.stack@[k]] >= self.idx()[self.stack@[0]]
        &&& forall|x: i64| #[trigger] self.idx().contains_key(x)
            ==> self.stack@.contains(x) || self.ntc().contains_key(x)
        &&& forall|i: int, m: int, w: i64| 0 <= i < self.components@.len() && 0 <= m < self.components@[i]@.len()
            && #[trigger] g.next(true, self.components@[i]@[m]).contains(w)
            ==> self.ntc().contains_key(w) && self.ntc()[w] <= i
    }

    /// What is known of paths: the lowlink of each id on the stack is the
    /// number of an id on the stack that it reaches, and the members of each
    /// component reach its last member and are reached from it.
    #[verifier::opaque]
    spec fn reach_ok(&self, g: &CallGraph) -> bool {
        &&& forall|k: int| 0 <= k < self.stack@.len() ==> low_witnessed(g, *self, #[trigger] self.stack@[k])
        &&& forall|i: int, m: int| 0 <= i < self.components@.len() && 0 <= m < self.components@[i]@.len()
            ==> g.reaches(true, #[trigger] self.components@[i]@[m], self.components@[i]@.last())
                && g.reaches(true, self.components@[i]@.last(), self.components@[i]@[m])
    }

    /// The component recorded for an id holds it.
    spec fn ntc_ok(&self) -> bool {
        forall|x: i64| #[trigger] self.ntc().contains_key(x)
            ==> self.ntc()[x] < self.components@.len()
                && self.components@[self.ntc()[x] as int]@.contains(x)
    }

    spec fn inv(&self, g: &CallGraph) -> bool {
        self.inv_core(g) && self.ntc_ok() && self.reach_ok(g)
    }
}

/// The lowlink of `x` is the number of an id on the stack that `x`
/// reaches.
spec fn low_witnessed(g: &CallGraph, st: Tarjan, x: i64) -> bool {
    exists|y: i64| #[trigger] st.stack@.contains(y) && st.idx()[y] == st.low()[x] && g.reaches(true, x, y)
}

/// Within each component every member reaches every other.
pub open spec fn components_connected(g: &CallGraph, cs: Seq<Vec<i64>>) -> bool {
    forall|i: int, a: int, b: int| 0 <= i < cs.len() && 0 <= a < cs[i]@.len() && 0 <= b < cs[i]@.len()
        ==> g.reaches(true, #[trigger] cs[i]@[a], #[trigger] cs[i]@[b])
}

/// What `b` keeps of `a`: the numbers and lowlinks of the ids numbered in
/// `a`, the components recorded in `a`, and the stack of `a` at its bottom.
spec fn grows(a: Tarjan, b: Tarjan) -> bool {
    &&& forall|x: i64| #[trigger] a.idx().contains_key(x) ==> b.idx().contains_key(x)
        && b.idx()[x] == a.idx()[x] && b.low()[x] == a.low()[x]
    &&& forall|x: i64| #[trigger] a.ntc().contains_key(x) ==> b.ntc().contains_key(x)
        && b.ntc()[x] == a.ntc()[x]
    &&& a.stack@.len() <= b.stack@.len()
    &&& b.stack@.subrange(0, a.stack@.len() as int) == a.stack@
}

/// The call from `x` to `w` is settled: `w` is numbered, and its component
/// is complete or it is on the stack numbered no lower than the lowlink of
/// `x`.
spec fn edge_ok(st: Tarjan, x: i64, w: i64) -> bool {
    &&& st.idx().contains_key(w)
    &&& st.ntc().contains_key(w) || (st.stack@.contains(w) && st.idx()[w] >= st.low()[x])
}

/// Every call from `x` is settled.
spec fn edges_done(g: &CallGraph, st: Tarjan, x: i64) -> bool {
    forall|w: i64| #[trigger] g.next(true, x).contains(w) ==> edge_ok(st, x, w)
}

proof fn lemma_grows_trans(a: Tarjan, b: Tarjan, c: Tarjan)
    requires
        grows(a, b),
        grows(b, c),
    ensures
        grows(a, c),
{
    assert(c.stack@.subrange(0, a.stack@.len() as int) =~= c.stack@.subrange(0, b.stack@.len() as int).subrange(0, a.stack@.len() as int));
}

proof fn lemma_edge_ok_grows(a: Tarjan, b: Tarjan, x: i64, w: i64)
    requires
        grows(a, b),
        a.idx().contains_key(x),
        edge_ok(a, x, w),
    ensures
        edge_ok(b, x, w),
{
    if !a.ntc().contains_key(w) {
        let p = choose|p: int| 0 <= p < a.stack@.len() && a.stack@[p] == w;
        assert(b.stack@.subrange(0, a.stack@.len() as int)[p] == b.stack@[p]);
        assert(b.stack@.contains(w));
    }
}

proof fn lemma_edges_done_grows(g: &CallGraph, a: Tarjan, b: Tarjan, x: i64)
    requires
        grows(a, b),
        a.idx().contains_key(x),
        edges_done(g, a, x),
    ensures
        edges_done(g, b, x),
{
    assert forall|w: i64| #[trigger] g.next(true, x).contains(w) implies edge_ok(b, x, w) by {
        lemma_edge_ok_grows(a, b, x, w);
    }
}

proof fn lemma_dom_bound_strict(g: &CallGraph, dom: Set<i64>, v: i64)
    requires
        g.wf(),
        dom.finite(),
        forall|x: i64| #[trigger] dom.contains(x) ==> g.nodes@.contains(x),
        g.nodes@.contains(v),
        !dom.contains(v),
    ensures
        dom.len() < g.nodes@.len(),
{
    let ns = g.nodes@.to_set();
    assert(dom.subset_of(ns.remove(v))) by {
        assert forall|x: i64| dom.contains(x) implies ns.remove(v).contains(x) by {
            assert(g.nodes@.contains(x));
        }
    }
    vstd::set_lib::lemma_len_subset(dom, ns.remove(v));
    g.nodes@.lemma_cardinality_of_set();
    assert(ns.contains(v));
}

proof fn lemma_dom_bound(g: &CallGraph, dom: Set<i64>)
    requires
        g.wf(),
        dom.finite(),
        forall|x: i64| #[trigger] dom.contains(x) ==> g.nodes@.contains(x),
    ensures
        dom.len() <= g.nodes@.len(),
{
    let ns = g.nodes@.to_set();
    assert(dom.subset_of(ns)) by {
        assert forall|x: i64| dom.contains(x) implies ns.contains(x) by {
            assert(g.nodes@.contains(x));
        }
    }
    vstd::set_lib::lemma_len_subset(dom, ns);
    g.nodes@.lemma_cardinality_of_set();
}

fn smaller(a: usize, b: usize) -> (r: usize)
    ensures
        r == (if a <= b { a } else { b }),
{
    if a <= b { a } else { b }
}

/// `b` is `a` with the lowlink of `v` lowered.
spec fn lowered(a: Tarjan, b: Tarjan, v: i64) -> bool {
    &&& b.index == a.index
    &&& b.stack@ == a.stack@
    &&& b.on_stack@ == a.on_stack@
    &&& b.idx() == a.idx()
    &&& b.components@ == a.components@
    &&& b.ntc() == a.ntc()
    &&& b.low().dom() == a.low().dom()
    &&& forall|x: i64| x != v ==> #[trigger] b.low()[x] == a.low()[x]
    &&& b.low()[v] <= a.low()[v]
}

proof fn lemma_edge_ok_lowered(a: Tarjan, b: Tarjan, v: i64, x: i64, w: i64)
    requires
        lowered(a, b, v),
        edge_ok(a, x, w),
    ensures
        edge_ok(b, x, w),
{
}

proof fn lemma_edges_done_lowered(g: &CallGraph, a: Tarjan, b: Tarjan, v: i64, x: i64)
    requires
        lowered(a, b, v),
        edges_done(g, a, x),
    ensures
        edges_done(g, b, x),
{
    assert forall|w: i64| #[trigger] g.next(true, x).contains(w) implies edge_ok(b, x, w) by {
        lemma_edge_ok_lowered(a, b, v, x, w);
    }
}

/// After `v` took the lowlink of its callee `w` into account, the lowlink
/// of each id on the stack is still witnessed.
/// The id on the stack that witnesses the lowlink of `x`.
proof fn lemma_witness(g: &CallGraph, st: Tarjan, x: i64) -> (y: i64)
    requires
        st.reach_ok(g),
        st.stack@.contains(x),
    ensures
        st.stack@.contains(y),
        st.idx()[y] == st.low()[x],
        g.reaches(true, x, y),
{
    reveal(Tarjan::reach_ok);
    let k = choose|k: int| 0 <= k < st.stack@.len() && st.stack@[k] == x;
    assert(low_witnessed(g, st, st.stack@[k]));
    choose|y: i64| #[trigger] st.stack@.contains(y) && st.idx()[y] == st.low()[x] && g.reaches(true, x, y)
}

/// After `v` took the lowlink of its callee `w` into account, the lowlink
/// of each id on the stack is still witnessed.
proof fn lemma_child_reach(g: &CallGraph, after: Tarjan, cur: Tarjan, v: i64, w: i64, base: int)
    requires
        after.reach_ok(g),
        lowered(after, cur, v),
        cur.low()[v] == (if after.low()[v] <= after.low()[w] { after.low()[v] } else { after.low()[w] }),
        0 <= base < after.stack@.len(),
        after.stack@[base] == v,
        g.next(true, v).contains(w),
        after.low()[w] < after.low()[v] ==> after.stack@.contains(w),
    ensures
        cur.reach_ok(g),
{
    assert(after.stack@.contains(v));
    let yv: i64 = if after.low()[w] < after.low()[v] {
        let yw = lemma_witness(g, after, w);
        lemma_reaches_prepend(g, true, v, w, yw);
        yw
    } else {
        lemma_witness(g, after, v)
    };
    assert(cur.stack@.contains(yv) && cur.idx()[yv] == cur.low()[v] && g.reaches(true, v, yv));
    reveal(Tarjan::reach_ok);
    assert forall|k: int| 0 <= k < cur.stack@.len() implies low_witnessed(g, cur, #[trigger] cur.stack@[k]) by {
        let x = cur.stack@[k];
        if x != v {
            assert(after.stack@.contains(x));
            let y = lemma_witness(g, after, x);
            assert(cur.stack@.contains(y) && cur.idx()[y] == cur.low()[x] && g.reaches(true, x, y));
        } else {
            assert(cur.stack@.contains(yv) && cur.idx()[yv] == cur.low()[x] && g.reaches(true, x, yv));
        }
    }
}

/// After `v` lowered its lowlink to the number of `w` on the stack, the
/// lowlink of each id on the stack is still witnessed.
#[verifier::rlimit(50)]
proof fn lemma_back_reach(g: &CallGraph, before: Tarjan, cur: Tarjan, v: i64, w: i64, base: int)
    requires
        before.reach_ok(g),
        lowered(before, cur, v),
        cur.low()[v] == (if before.low()[v] <= before.idx()[w] { before.low()[v] } else { before.idx()[w] }),
        0 <= base < before.stack@.len(),
        before.stack@[base] == v,
        g.next(true, v).contains(w),
        before.stack@.contains(w),
    ensures
        cur.reach_ok(g),
{
    reveal(Tarjan::reach_ok);
    assert(low_witnessed(g, cur, v)) by {
        if before.idx()[w] < before.low()[v] {
            lemma_reaches_refl(g, true, w);
            lemma_reaches_prepend(g, true, v, w, w);
            assert(cur.stack@.contains(w) && cur.idx()[w] == cur.low()[v] && g.reaches(true, v, w));
        } else {
            assert(low_witnessed(g, before, before.stack@[base]));
            let y = choose|y: i64| #[trigger] before.stack@.contains(y) && before.idx()[y] == before.low()[v] && g.reaches(true, v, y);
            assert(cur.stack@.contains(y) && cur.idx()[y] == cur.low()[v] && g.reaches(true, v, y));
        }
    }
    assert forall|k: int| 0 <= k < cur.stack@.len() implies low_witnessed(g, cur, #[trigger] cur.stack@[k]) by {
        let x = cur.stack@[k];
        if x != v {
            assert(low_witnessed(g, before, before.stack@[k]));
            let y = choose|y: i64| #[trigger] before.stack@.contains(y) && before.idx()[y] == before.low()[x] && g.reaches(true, x, y);
            assert(cur.stack@.contains(y) && cur.idx()[y] == cur.low()[x] && g.reaches(true, x, y));
        }
    }
}

/// After the search from the callee `w` of `v` returned and the lowlink of
/// `v` took that of `w` into account, the search state is sound, and every
/// call from `v` seen so far and from the ids above `v` is settled.
proof fn lemma_after_child(
    g: &CallGraph,
    entry: Tarjan,
    before: Tarjan,
    after: Tarjan,
    cur: Tarjan,
    v: i64,
    w: i64,
    base: int,
    ns: Seq<i64>,
    j: int,
)
    requires
        g.wf(),
        before.inv(g),
        after.inv(g),
        !entry.idx().contains_key(v),
        grows(entry, before),
        grows(before, after),
        base == entry.stack@.len(),
        before.stack@.len() > base,
        before.stack@[base] == v,
        before.idx().contains_key(v),
        !before.idx().contains_key(w),
        after.idx().contains_key(w),
        after.stack@.len() > before.stack@.len() ==> after.stack@[before.stack@.len() as int] == w,
        forall|p: int| before.stack@.len() <= p < after.stack@.len()
            ==> edges_done(g, after, #[trigger] after.stack@[p]) && after.low()[after.stack@[p]] >= after.low()[w]
                && after.low()[after.stack@[p]] < after.idx()[after.stack@[p]],
        before.stack@.len() > 0 ==> after.low()[w] >= after.idx()[before.stack@[0]],
        after.stack@.len() == before.stack@.len() ==> after.low()[w] == after.idx()[w],
        after.idx()[w] == before.index,
        forall|x: i64| #[trigger] after.idx().contains_key(x) && !before.idx().contains_key(x) ==> g.reaches(true, w, x),
        forall|x: i64| #[trigger] before.idx().contains_key(x) && !entry.idx().contains_key(x) ==> g.reaches(true, v, x),
        forall|p: int| base < p < before.stack@.len()
            ==> edges_done(g, before, #[trigger] before.stack@[p]) && before.low()[before.stack@[p]] >= before.low()[v]
                && before.low()[before.stack@[p]] < before.idx()[before.stack@[p]],
        ns == g.next(true, v),
        0 <= j < ns.len(),
        ns[j] == w,
        forall|k: int| 0 <= k < j ==> edge_ok(before, v, #[trigger] ns[k]),
        cur.index == after.index,
        cur.stack@ == after.stack@,
        cur.on_stack@ == after.on_stack@,
        cur.idx() == after.idx(),
        cur.components@ == after.components@,
        cur.ntc() == after.ntc(),
        cur.low() == after.low().insert(v,
            if after.low()[v] <= after.low()[w] { after.low()[v] } else { after.low()[w] }),
    ensures
        cur.inv(g),
        grows(entry, cur),
        forall|k: int| 0 <= k < j + 1 ==> edge_ok(cur, v, #[trigger] ns[k]),
        forall|p: int| base < p < cur.stack@.len()
            ==> edges_done(g, cur, #[trigger] cur.stack@[p]) && cur.low()[cur.stack@[p]] >= cur.low()[v]
                && cur.low()[cur.stack@[p]] < cur.idx()[cur.stack@[p]],
        forall|x: i64| #[trigger] cur.idx().contains_key(x) && !entry.idx().contains_key(x) ==> g.reaches(true, v, x),
{
    assert(cur.low().dom() =~= after.low().dom());
    assert(lowered(after, cur, v));
    assert(g.next(true, v).contains(w)) by {
        assert(ns[j] == w);
    }
    // whatever the search from `w` numbered, `v` reaches
    assert forall|x: i64| #[trigger] cur.idx().contains_key(x) && !entry.idx().contains_key(x)
        implies g.reaches(true, v, x) by {
        if !before.idx().contains_key(x) {
            lemma_reaches_prepend(g, true, v, w, x);
        }
    }
    // the lowlink of `v` is witnessed on the stack
    assert(after.low()[w] < after.low()[v] ==> after.stack@.contains(w)) by {
        if after.low()[w] < after.low()[v] {
            if after.stack@.len() == before.stack@.len() {
                assert(before.idx().contains_key(v));
                assert(before.idx()[v] < before.index);
                assert(after.low()[v] <= after.idx()[v]);
                assert(false);
            }
            assert(after.stack@[before.stack@.len() as int] == w);
        }
    }
    assert(after.stack@[base] == v) by {
        assert(after.stack@[base] == after.stack@.subrange(0, before.stack@.len() as int)[base]);
    }
    lemma_child_reach(g, after, cur, v, w, base);
    assert(after.stack@[base] == after.stack@.subrange(0, before.stack@.len() as int)[base]);
    assert(after.stack@[0] == after.stack@.subrange(0, before.stack@.len() as int)[0]);
    assert(before.idx().contains_key(before.stack@[0]));
    // the lowlink of `v` stays within the stack
    assert forall|k: int| 0 <= k < cur.stack@.len()
        implies cur.low()[#[trigger] cur.stack@[k]] >= cur.idx()[cur.stack@[0]] by {
        if k != base {
            assert(cur.stack@[k] != v) by {
                assert(after.stack@[k] != after.stack@[base]);
            }
        }
    }
    assert forall|x: i64| #[trigger] cur.idx().contains_key(x)
        implies cur.idx()[x] < cur.index && cur.low()[x] <= cur.idx()[x] by {
        assert(after.idx().contains_key(x));
    }
    assert(cur.inv_core(g));
    assert(cur.inv(g));
    lemma_grows_trans(entry, before, after);
    assert(grows(entry, cur));
    // the call to `w` is settled
    assert(edge_ok(cur, v, w)) by {
        if after.stack@.len() > before.stack@.len() {
            assert(cur.stack@[before.stack@.len() as int] == w);
            assert(cur.stack@.contains(w));
        } else {
            assert(after.stack@ =~= before.stack@);
            if before.stack@.contains(w) {
                let k = choose|k: int| 0 <= k < before.stack@.len() && before.stack@[k] == w;
                assert(before.idx().contains_key(before.stack@[k]));
            }
            assert(after.idx().contains_key(w));
        }
    }
    assert forall|k: int| 0 <= k < j + 1 implies edge_ok(cur, v, #[trigger] ns[k]) by {
        if k < j {
            lemma_edge_ok_grows(before, after, v, ns[k]);
            lemma_edge_ok_lowered(after, cur, v, v, ns[k]);
        }
    }
    assert forall|p: int| base < p < cur.stack@.len()
        implies edges_done(g, cur, #[trigger] cur.stack@[p]) && cur.low()[cur.stack@[p]] >= cur.low()[v]
            && cur.low()[cur.stack@[p]] < cur.idx()[cur.stack@[p]] by {
        let x = cur.stack@[p];
        assert(x != v) by {
            assert(after.stack@[p] != after.stack@[base]);
        }
        if p < before.stack@.len() {
            assert(after.stack@.subrange(0, before.stack@.len() as int)[p] == after.stack@[p]);
            assert(before.stack@[p] == x);
            assert(before.idx().contains_key(x));
            lemma_edges_done_grows(g, before, after, x);
        }
        lemma_edges_done_lowered(g, after, cur, v, x);
    }
}

/// After `v` met the callee `w` already on the stack and lowered its
/// lowlink to the number of `w`, the search state is sound, and every call
/// from `v` seen so far and from the ids above `v` is settled.
proof fn lemma_after_back_edge(
    g: &CallGraph,
    entry: Tarjan,
    before: Tarjan,
    cur: Tarjan,
    v: i64,
    w: i64,
    base: int,
    ns: Seq<i64>,
    j: int,
)
    requires
        g.wf(),
        before.inv(g),
        !entry.idx().contains_key(v),
        grows(entry, before),
        before.stack@.len() > base >= 0,
        before.stack@[base] == v,
        before.idx().contains_key(v),
        before.idx().contains_key(w),
        before.stack@.contains(w),
        forall|p: int| base < p < before.stack@.len()
            ==> edges_done(g, before, #[trigger] before.stack@[p]) && before.low()[before.stack@[p]] >= before.low()[v]
                && before.low()[before.stack@[p]] < before.idx()[before.stack@[p]],
        ns == g.next(true, v),
        0 <= j < ns.len(),
        ns[j] == w,
        forall|k: int| 0 <= k < j ==> edge_ok(before, v, #[trigger] ns[k]),
        cur.index == before.index,
        cur.stack@ == before.stack@,
        cur.on_stack@ == before.on_stack@,
        cur.idx() == before.idx(),
        cur.components@ == before.components@,
        cur.ntc() == before.ntc(),
        cur.low() == before.low().insert(v,
            if before.low()[v] <= before.idx()[w] { before.low()[v] } else { before.idx()[w] }),
    ensures
        cur.inv(g),
        grows(entry, cur),
        forall|k: int| 0 <= k < j + 1 ==> edge_ok(cur, v, #[trigger] ns[k]),
        forall|p: int| base < p < cur.stack@.len()
            ==> edges_done(g, cur, #[trigger] cur.stack@[p]) && cur.low()[cur.stack@[p]] >= cur.low()[v]
                && cur.low()[cur.stack@[p]] < cur.idx()[cur.stack@[p]],
{
    assert(cur.low().dom() =~= before.low().dom());
    assert(lowered(before, cur, v));
    assert(g.next(true, v).contains(w)) by {
        assert(ns[j] == w);
    }
    lemma_back_reach(g, before, cur, v, w, base);
    let q = choose|q: int| 0 <= q < before.stack@.len() && before.stack@[q] == w;
    if q > 0 {
        assert(before.idx()[before.stack@[0]] < before.idx()[before.stack@[q]]);
    }
    assert forall|k: int| 0 <= k < cur.stack@.len()
        implies cur.low()[#[trigger] cur.stack@[k]] >= cur.idx()[cur.stack@[0]] by {
        if k != base {
            assert(cur.stack@[k] != v) by {
                assert(before.stack@[k] != before.stack@[base]);
            }
        }
    }
    assert forall|x: i64| #[trigger] cur.idx().contains_key(x)
        implies cur.idx()[x] < cur.index && cur.low()[x] <= cur.idx()[x] by {
        assert(before.idx().contains_key(x));
    }
    assert(cur.inv_core(g));
    assert(cur.inv(g));
    assert(edge_ok(cur, v, w));
    assert forall|k: int| 0 <= k < j + 1 implies edge_ok(cur, v, #[trigger] ns[k]) by {
        if k < j {
            lemma_edge_ok_lowered(before, cur, v, v, ns[k]);
        }
    }
    assert forall|p: int| base < p < cur.stack@.len()
        implies edges_done(g, cur, #[trigger] cur.stack@[p]) && cur.low()[cur.stack@[p]] >= cur.low()[v]
            && cur.low()[cur.stack@[p]] < cur.idx()[cur.stack@[p]] by {
        let x = cur.stack@[p];
        assert(x != v) by {
            assert(before.stack@[p] != before.stack@[base]);
        }
        lemma_edges_done_lowered(g, before, cur, v, x);
    }
}

/// Tarjan's search from entity `v`: numbers it, visits its callees not yet
/// numbered, and completes a component when `v` turns out to be its root.
fn strongconnect(g: &CallGraph, index_of: &HashMap<i64, usize>, v: i64, st: &mut Tarjan)
    requires
        g.wf(),
        forall|x: i64| #[trigger] index_of@.contains_key(x) <==> node_pos(g.nodes@, x) is Some,
        forall|x: i64| #[trigger] index_of@.contains_key(x) ==> node_pos(g.nodes@, x) == Some(index_of@[x] as int),
        old(st).inv(g),
        g.nodes@.contains(v),
        !old(st).idx().contains_key(v),
    ensures
        final(st).inv(g),
        final(st).idx().contains_key(v),
        final(st).idx()[v] == old(st).index,
        grows(*old(st), *final(st)),
        old(st).components@.len() <= final(st).components@.len(),
        final(st).components@.subrange(0, old(st).components@.len() as int) == old(st).components@,
        final(st).stack@.len() > old(st).stack@.len() ==> final(st).stack@[old(st).stack@.len() as int] == v,
        forall|p: int| old(st).stack@.len() <= p < final(st).stack@.len()
            ==> edges_done(g, *final(st), #[trigger] final(st).stack@[p])
                && final(st).low()[final(st).stack@[p]] >= final(st).low()[v]
                && final(st).low()[final(st).stack@[p]] < final(st).idx()[final(st).stack@[p]],
        old(st).stack@.len() > 0 ==> final(st).low()[v] >= final(st).idx()[old(st).stack@[0]],
        old(st).stack@.len() == 0 ==> final(st).stack@.len() == 0,
        final(st).stack@.len() == old(st).stack@.len() ==> final(st).low()[v] == final(st).idx()[v],
        forall|x: i64| #[trigger] final(st).idx().contains_key(x) && !old(st).idx().contains_key(x)
            ==> g.reaches(true, v, x),
    decreases g.nodes@.len() - old(st).idx().dom().len(),
{
    let ghost entry = *st;
    let base = st.stack.len();
    let node_count = g.nodes.len();
    proof {
        lemma_dom_bound_strict(g, st.idx().dom(), v);
        assert(st.index < node_count);
    }
    pos_map_insert(&mut st.indices, v, st.index);
    pos_map_insert(&mut st.lowlinks, v, st.index);
    st.index = st.index + 1;
    st.stack.push(v);
    st.on_stack.insert(v);
    proof {
        assert(st.idx().dom() =~= entry.idx().dom().insert(v));
        assert(st.low().dom() =~= st.idx().dom());
        lemma_dom_bound(g, st.idx().dom());
        assert forall|a: int, b: int| 0 <= a < b < st.stack@.len() implies st.stack@[a] != st.stack@[b] by {
            if b == st.stack@.len() - 1 {
                assert(entry.idx().contains_key(st.stack@[a]));
            }
        }
        assert forall|k: int, i: int, m: int| 0 <= k < st.stack@.len() && 0 <= i < st.components@.len()
            && 0 <= m < st.components@[i]@.len() implies #[trigger] st.stack@[k] != #[trigger] st.components@[i]@[m] by {
            if k == st.stack@.len() - 1 {
                assert(entry.idx().contains_key(st.components@[i]@[m]));
            } else {
                assert(st.stack@[k] == entry.stack@[k]);
            }
        }
        assert forall|x: i64| #[trigger] st.on_stack@.contains(x) <==> st.stack@.contains(x) by {
            if st.stack@.contains(x) && x != v {
                let k = choose|k: int| 0 <= k < st.stack@.len() && st.stack@[k] == x;
                assert(entry.stack@[k] == x);
            }
            if entry.stack@.contains(x) {
                let k = choose|k: int| 0 <= k < entry.stack@.len() && entry.stack@[k] == x;
                assert(st.stack@[k] == x);
            }
            assert(st.stack@[base as int] == v);
        }
        assert forall|a: int, b: int| 0 <= a < b < st.stack@.len()
            implies st.idx()[#[trigger] st.stack@[a]] < st.idx()[#[trigger] st.stack@[b]] by {
            assert(st.stack@[a] == entry.stack@[a]);
            assert(entry.idx().contains_key(entry.stack@[a]));
            if b < base {
                assert(st.stack@[b] == entry.stack@[b]);
                assert(entry.idx().contains_key(entry.stack@[b]));
            }
        }
        assert forall|k: int| 0 <= k < st.stack@.len()
            implies st.low()[#[trigger] st.stack@[k]] >= st.idx()[st.stack@[0]] by {
            if base > 0 {
                assert(st.stack@[0] == entry.stack@[0]);
                assert(entry.idx().contains_key(entry.stack@[0]));
                if k < base {
                    assert(st.stack@[k] == entry.stack@[k]);
                    assert(entry.idx().contains_key(entry.stack@[k]));
                }
            }
        }
        assert forall|x: i64| #[trigger] st.idx().contains_key(x)
            implies st.stack@.contains(x) || st.ntc().contains_key(x) by {
            if x == v {
                assert(st.stack@[base as int] == v);
            } else if entry.stack@.contains(x) {
                let k = choose|k: int| 0 <= k < entry.stack@.len() && entry.stack@[k] == x;
                assert(st.stack@[k] == x);
            }
        }
        assert(st.stack@.subrange(0, base as int) =~= entry.stack@);
        assert(grows(entry, *st));
        lemma_reaches_refl(g, true, v);
        assert(st.reach_ok(g)) by {
        reveal(Tarjan::reach_ok);
        assert forall|k: int| 0 <= k < st.stack@.len() implies low_witnessed(g, *st, #[trigger] st.stack@[k]) by {
            let x = st.stack@[k];
            if k < base {
                assert(entry.stack@[k] == x);
                assert(low_witnessed(g, entry, entry.stack@[k]));
                let y = choose|y: i64| #[trigger] entry.stack@.contains(y) && entry.idx()[y] == entry.low()[x] && g.reaches(true, x, y);
                let q = choose|q: int| 0 <= q < entry.stack@.len() && entry.stack@[q] == y;
                assert(st.stack@[q] == y);
                assert(entry.idx().contains_key(entry.stack@[q]));
                assert(entry.idx().contains_key(entry.stack@[k]));
                assert(st.stack@.contains(y) && st.idx()[y] == st.low()[x] && g.reaches(true, x, y));
            } else {
                assert(st.stack@[base as int] == v);
                assert(st.stack@.contains(v) && st.idx()[v] == st.low()[v]);
            }
        }
        }
    }
    let ns = &g.outgoing[index_of_entity(g, index_of, v)];
    let mut j: usize = 0;
    while j < ns.len()
        invariant
            g.wf(),
            forall|x: i64| #[trigger] index_of@.contains_key(x) <==> node_pos(g.nodes@, x) is Some,
            forall|x: i64| #[trigger] index_of@.contains_key(x) ==> node_pos(g.nodes@, x) == Some(index_of@[x] as int),
            st.inv(g),
            st.idx().contains_key(v),
            st.idx()[v] == entry.index,
            grows(entry, *st),
            entry == *old(st),
            !entry.idx().contains_key(v),
            base == entry.stack@.len(),
            st.stack@.len() > base,
            st.stack@[base as int] == v,
            entry.components@.len() <= st.components@.len(),
            st.components@.subrange(0, entry.components@.len() as int) == entry.components@,
            g.nodes@.len() - st.idx().dom().len() < g.nodes@.len() - entry.idx().dom().len(),
            ns@ == g.next(true, v),
            forall|k: int| 0 <= k < ns@.len() ==> g.nodes@.contains(#[trigger] ns@[k]),
            j <= ns@.len(),
            forall|k: int| 0 <= k < j ==> edge_ok(*st, v, #[trigger] ns@[k]),
            forall|p: int| base < p < st.stack@.len()
                ==> edges_done(g, *st, #[trigger] st.stack@[p]) && st.low()[st.stack@[p]] >= st.low()[v]
                    && st.low()[st.stack@[p]] < st.idx()[st.stack@[p]],
            forall|x: i64| #[trigger] st.idx().contains_key(x) && !entry.idx().contains_key(x) ==> g.reaches(true, v, x),
        decreases ns@.len() - j,
    {
        let w = ns[j];
        if !pos_map_contains(&st.indices, w) {
            let ghost before = *st;
            proof {
                lemma_dom_bound(g, st.idx().dom());
                assert(0 <= g.nodes@.len() - st.idx().dom().len());
                assert(g.nodes@.len() - st.idx().dom().len() < g.nodes@.len() - old(st).idx().dom().len());
            }
            strongconnect(g, index_of, w, st);
            let ghost after = *st;
            proof {
                assert(st.stack@.subrange(0, base as int) =~= before.stack@.subrange(0, base as int));
                assert(st.stack@[base as int] == st.stack@.subrange(0, before.stack@.len() as int)[base as int]);
                assert(st.components@.subrange(0, entry.components@.len() as int)
                    =~= st.components@.subrange(0, before.components@.len() as int).subrange(0, entry.components@.len() as int));
                lemma_dom_bound(g, st.idx().dom());
                vstd::set_lib::lemma_len_subset(before.idx().dom(), st.idx().dom());
                lemma_grows_trans(entry, before, after);
            }
            let v_low = pos_map_get(&st.lowlinks, v).unwrap();
            let w_low = pos_map_get(&st.lowlinks, w).unwrap();
            pos_map_insert(&mut st.lowlinks, v, smaller(v_low, w_low));
            proof {
                assert(st.low().dom() =~= st.idx().dom());
                lemma_after_child(g, entry, before, after, *st, v, w, base as int, ns@, j as int);
            }
        } else if st.on_stack.contains(&w) {
            let ghost before = *st;
            let v_low = pos_map_get(&st.lowlinks, v).unwrap();
            let w_idx = pos_map_get(&st.indices, w).unwrap();
            pos_map_insert(&mut st.lowlinks, v, smaller(v_low, w_idx));
            proof {
                assert(st.low().dom() =~= st.idx().dom());
                lemma_after_back_edge(g, entry, before, *st, v, w, base as int, ns@, j as int);
            }
        } else {
            proof {
                assert(st.ntc().contains_key(w));
            }
        }
        j = j + 1;
    }
    proof {
        assert forall|w: i64| #[trigger] g.next(true, v).contains(w) implies edge_ok(*st, v, w) by {
            let k = choose|k: int| 0 <= k < ns@.len() && ns@[k] == w;
        }
        assert(edges_done(g, *st, v));
    }
    let v_low = pos_map_get(&st.lowlinks, v).unwrap();
    let v_idx = pos_map_get(&st.indices, v).unwrap();
    proof {
        if base == 0 {
            assert(st.low()[st.stack@[0]] >= st.idx()[st.stack@[0]]);
        }
    }
    if v_low == v_idx {
        proof {
            assert forall|p: int| base <= p < st.stack@.len() implies g.reaches(true, v, #[trigger] st.stack@[p]) by {
                let x = st.stack@[p];
                if p > base {
                    assert(st.idx()[st.stack@[base as int]] < st.idx()[st.stack@[p]]);
                }
                if entry.idx().contains_key(x) {
                    assert(entry.idx()[x] < entry.index);
                }
            }
        }
        complete_component(g, st, v, base, Ghost(entry));
    } else {
        proof {
            assert(base > 0);
            assert(st.stack@[0] == st.stack@.subrange(0, base as int)[0]);
            assert(st.low()[st.stack@[base as int]] >= st.idx()[st.stack@[0]]);
        }
    }
}

/// Every id on the stack from the root `v` up reaches `v`: its lowlink is
/// the number of an id on the stack that it reaches, lower than its own and
/// no lower than that of `v`.
proof fn lemma_reaches_root(g: &CallGraph, st: Tarjan, base: int, v: i64, q: int)
    requires
        st.inv(g),
        0 <= base <= q < st.stack@.len(),
        st.stack@[base] == v,
        st.idx().contains_key(v),
        st.low()[v] == st.idx()[v],
        forall|p: int| base <= p < st.stack@.len() ==> st.low()[#[trigger] st.stack@[p]] >= st.low()[v],
        forall|p: int| base < p < st.stack@.len() ==> st.low()[st.stack@[p]] < st.idx()[#[trigger] st.stack@[p]],
    ensures
        g.reaches(true, st.stack@[q], v),
    decreases q - base,
{
    reveal(Tarjan::reach_ok);
    let x = st.stack@[q];
    if q == base {
        lemma_reaches_refl(g, true, v);
    } else {
        assert(low_witnessed(g, st, st.stack@[q]));
        let y = choose|y: i64| #[trigger] st.stack@.contains(y) && st.idx()[y] == st.low()[x] && g.reaches(true, x, y);
        let qy = choose|qy: int| 0 <= qy < st.stack@.len() && st.stack@[qy] == y;
        if qy < base {
            assert(st.idx()[st.stack@[qy]] < st.idx()[st.stack@[base]]);
        }
        if qy >= q {
            if qy > q {
                assert(st.idx()[st.stack@[q]] < st.idx()[st.stack@[qy]]);
            }
        }
        lemma_reaches_root(g, st, base, v, qy);
        lemma_reaches_trans(g, true, x, y, v);
    }
}

/// Pops the stack down to the root `v`, all of it one component, and
/// records that component.
#[verifier::rlimit(40)]
fn complete_component(g: &CallGraph, st: &mut Tarjan, v: i64, base: usize, Ghost(entry): Ghost<Tarjan>)
    requires
        g.wf(),
        old(st).inv(g),
        base == entry.stack@.len(),
        old(st).stack@.len() > base,
        old(st).stack@[base as int] == v,
        old(st).idx().contains_key(v),
        old(st).low()[v] == old(st).idx()[v],
        grows(entry, *old(st)),
        forall|p: int| base <= p < old(st).stack@.len()
            ==> edges_done(g, *old(st), #[trigger] old(st).stack@[p])
                && old(st).low()[old(st).stack@[p]] >= old(st).low()[v],
        forall|p: int| base < p < old(st).stack@.len()
            ==> old(st).low()[old(st).stack@[p]] < old(st).idx()[#[trigger] old(st).stack@[p]],
        forall|p: int| base <= p < old(st).stack@.len() ==> g.reaches(true, v, #[trigger] old(st).stack@[p]),
    ensures
        final(st).inv(g),
        final(st).idx() == old(st).idx(),
        final(st).low() == old(st).low(),
        final(st).index == old(st).index,
        final(st).stack@ == entry.stack@,
        final(st).components@.len() == old(st).components@.len() + 1,
        final(st).components@.subrange(0, old(st).components@.len() as int) == old(st).components@,
        grows(entry, *final(st)),
        final(st).ntc().contains_key(v),
{
    let ghost s0 = st.stack@;
    let ghost ntc0 = st.ntc();
    let ghost cs0 = st.components@;
    let ghost ind0 = st.idx();
    let ghost low0 = st.low();
    let c = st.components.len();
    proof {
        assert forall|p: int, w: i64| base <= p < s0.len() && #[trigger] g.next(true, s0[p]).contains(w)
            implies (ntc0.contains_key(w) && ntc0[w] < c) || (exists|q: int| base <= q < s0.len() && s0[q] == w) by {
            assert(edges_done(g, *old(st), s0[p]));
            assert(edge_ok(*old(st), s0[p], w));
            if !ntc0.contains_key(w) {
                let q = choose|q: int| 0 <= q < s0.len() && s0[q] == w;
                if q < base {
                    assert(ind0[s0[q]] < ind0[s0[base as int]]);
                }
                assert(base <= q);
            }
        }
        assert forall|p: int| base <= p < s0.len() implies g.reaches(true, #[trigger] s0[p], v) by {
            lemma_reaches_root(g, *old(st), base as int, v, p);
        }
        assert forall|k: int| 0 <= k < s0.len() implies !ntc0.contains_key(#[trigger] s0[k]) by {
            if ntc0.contains_key(s0[k]) {
                let m = choose|m: int| 0 <= m < cs0[ntc0[s0[k]] as int]@.len() && cs0[ntc0[s0[k]] as int]@[m] == s0[k];
                assert(s0[k] != cs0[ntc0[s0[k]] as int]@[m]);
            }
        }
    }
    let mut component: Vec<i64> = Vec::new();
    loop
        invariant_except_break
            st.stack@.len() > base,
        invariant
            g.wf(),
            st.inv_core(g),
            st.reach_ok(g),
            st.idx() == ind0,
            st.low() == low0,
            st.index == old(st).index,
            st.components@ == cs0,
            c == cs0.len(),
            s0 == old(st).stack@,
            ntc0 == old(st).ntc(),
            cs0 == old(st).components@,
            base < s0.len(),
            s0[base as int] == v,
            forall|a: int, b: int| 0 <= a < b < s0.len() ==> s0[a] != s0[b],
            forall|a: int, b: int| 0 <= a < b < s0.len() ==> ind0[#[trigger] s0[a]] < ind0[#[trigger] s0[b]],
            forall|k: int| 0 <= k < s0.len() ==> !ntc0.contains_key(#[trigger] s0[k]),
            forall|p: int| base <= p < s0.len() ==> g.reaches(true, #[trigger] s0[p], v) && g.reaches(true, v, s0[p]),
            forall|x: i64| #[trigger] ntc0.contains_key(x) ==> ntc0[x] < c && cs0[ntc0[x] as int]@.contains(x),
            base <= st.stack@.len(),
            component@.len() + st.stack@.len() == s0.len(),
            st.stack@ == s0.subrange(0, st.stack@.len() as int),
            forall|k: int| 0 <= k < component@.len() ==> #[trigger] component@[k] == s0[s0.len() - 1 - k],
            forall|x: i64| #[trigger] st.ntc().contains_key(x) <==> (ntc0.contains_key(x) || component@.contains(x)),
            forall|x: i64| #[trigger] ntc0.contains_key(x) ==> st.ntc()[x] == ntc0[x],
            forall|x: i64| #[trigger] component@.contains(x) ==> st.ntc()[x] == c,
        ensures
            st.stack@.len() == base,
        decreases st.stack@.len(),
    {
        let ghost before = st.stack@;
        let ghost stb = *st;
        let ghost ntcb = st.ntc();
        let ghost comp_b = component@;
        let w = st.stack.pop().unwrap();
        st.on_stack.remove(&w);
        pos_map_insert(&mut st.node_to_component, w, c);
        component.push(w);
        proof {
            let n = before.len() - 1;
            assert(w == s0[n]);
            assert(st.stack@ =~= s0.subrange(0, n));
            assert(!ntc0.contains_key(w));
            assert forall|k: int| 0 <= k < component@.len() implies #[trigger] component@[k] == s0[s0.len() - 1 - k] by {
                if k < comp_b.len() {
                    assert(component@[k] == comp_b[k]);
                }
            }
            assert forall|x: i64| #[trigger] component@.contains(x) <==> (comp_b.contains(x) || x == w) by {
                if component@.contains(x) {
                    let k = choose|k: int| 0 <= k < component@.len() && component@[k] == x;
                    if k < comp_b.len() {
                        assert(comp_b[k] == x);
                    }
                }
                if comp_b.contains(x) {
                    let k = choose|k: int| 0 <= k < comp_b.len() && comp_b[k] == x;
                    assert(component@[k] == x);
                }
                assert(component@[comp_b.len() as int] == w);
            }
            assert forall|x: i64| #[trigger] ntc0.contains_key(x) implies st.ntc()[x] == ntc0[x] by {
                assert(x != w);
            }
            assert forall|x: i64| #[trigger] component@.contains(x) implies st.ntc()[x] == c by {
                if x != w {
                    assert(comp_b.contains(x));
                }
            }
            // the rest of the stack is unchanged and no longer holds `w`
            assert forall|x: i64| #[trigger] st.on_stack@.contains(x) <==> st.stack@.contains(x) by {
                if st.stack@.contains(x) {
                    let k = choose|k: int| 0 <= k < st.stack@.len() && st.stack@[k] == x;
                    assert(before[k] == x);
                    assert(x != w) by {
                        assert(s0[k] != s0[n]);
                    }
                }
                if before.contains(x) && x != w {
                    let k = choose|k: int| 0 <= k < before.len() && before[k] == x;
                    assert(k != n);
                    assert(st.stack@[k] == x);
                }
            }
            assert forall|x: i64| #[trigger] st.idx().contains_key(x)
                implies st.stack@.contains(x) || st.ntc().contains_key(x) by {
                if before.contains(x) && x != w {
                    let k = choose|k: int| 0 <= k < before.len() && before[k] == x;
                    assert(k != n);
                    assert(st.stack@[k] == x);
                }
            }
            assert forall|i: int, k: int| 0 <= i < cs0.len() && 0 <= k < cs0[i]@.len()
                implies st.ntc().contains_key(#[trigger] cs0[i]@[k]) && st.ntc()[cs0[i]@[k]] == i by {
                assert(ntcb.contains_key(cs0[i]@[k]));
            }
            assert forall|i: int, m: int, x: i64| 0 <= i < cs0.len() && 0 <= m < cs0[i]@.len()
                && #[trigger] g.next(true, cs0[i]@[m]).contains(x)
                implies st.ntc().contains_key(x) && st.ntc()[x] <= i by {
                assert(ntcb.contains_key(x) && ntcb[x] <= i);
                if x == w {
                    assert(ntcb.contains_key(x) ==> (ntc0.contains_key(x) || comp_b.contains(x)));
                    if comp_b.contains(x) {
                        let k = choose|k: int| 0 <= k < comp_b.len() && comp_b[k] == x;
                        assert(s0[s0.len() - 1 - k] == s0[n]);
                    }
                }
            }
            assert(st.reach_ok(g)) by {
            reveal(Tarjan::reach_ok);
            assert forall|k: int| 0 <= k < st.stack@.len() implies low_witnessed(g, *st, #[trigger] st.stack@[k]) by {
                let x = st.stack@[k];
                assert(before[k] == x);
                assert(low_witnessed(g, stb, stb.stack@[k]));
                let y = choose|y: i64| #[trigger] stb.stack@.contains(y) && stb.idx()[y] == stb.low()[x] && g.reaches(true, x, y);
                let ky = choose|ky: int| 0 <= ky < before.len() && before[ky] == y;
                assert(stb.idx().contains_key(stb.stack@[k]));
                if ky == n {
                    assert(ind0[s0[k]] < ind0[s0[n]]);
                    assert(false);
                }
                assert(st.stack@[ky] == y);
                assert(st.stack@.contains(y) && st.idx()[y] == st.low()[x] && g.reaches(true, x, y));
            }
            }
            if w != v {
                assert(n != base as int);
            }
        }
        if w == v {
            break;
        }
    }
    let ghost comp = component@;
    let ghost st_pre = *st;
    assert(component@.no_duplicates()) by {
        assert forall|a: int, b: int| 0 <= a < component@.len() && 0 <= b < component@.len() && a != b
            implies component@[a] != component@[b] by {
            assert(component@[a] == s0[s0.len() - 1 - a]);
            assert(component@[b] == s0[s0.len() - 1 - b]);
        }
    }
    st.components.push(component);
    proof {
        let cs = st.components@;
        assert(cs[c as int]@ == comp);
        assert(comp.len() == s0.len() - base);
        assert(st.stack@ =~= entry.stack@) by {
            assert(s0.subrange(0, base as int) == entry.stack@);
        }
        assert(comp[comp.len() - 1] == v);
        // members of the new component
        assert forall|x: i64| #[trigger] comp.contains(x) <==> (exists|q: int| base <= q < s0.len() && s0[q] == x) by {
            if comp.contains(x) {
                let k = choose|k: int| 0 <= k < comp.len() && comp[k] == x;
                assert(s0[s0.len() - 1 - k] == x);
            }
            if exists|q: int| base <= q < s0.len() && s0[q] == x {
                let q = choose|q: int| base <= q < s0.len() && s0[q] == x;
                assert(comp[s0.len() - 1 - q] == x);
            }
        }
        assert forall|i: int| 0 <= i < cs.len() implies (#[trigger] cs[i])@.len() > 0 by {
            if i < c {
                assert(cs[i] == cs0[i]);
            }
        }
        assert forall|i: int, k: int| 0 <= i < cs.len() && 0 <= k < cs[i]@.len()
            implies g.nodes@.contains(#[trigger] cs[i]@[k]) by {
            if i < c {
                assert(cs[i] == cs0[i]);
            } else {
                assert(cs[i]@[k] == s0[s0.len() - 1 - k]);
                assert(old(st).stack@[s0.len() - 1 - k] == s0[s0.len() - 1 - k]);
            }
        }
        assert forall|i: int, k: int| 0 <= i < cs.len() && 0 <= k < cs[i]@.len()
            implies st.ntc().contains_key(#[trigger] cs[i]@[k]) && st.ntc()[cs[i]@[k]] == i by {
            if i < c {
                assert(cs[i] == cs0[i]);
            } else {
                assert(comp.contains(cs[i]@[k]));
            }
        }
        assert forall|i: int, m: int| 0 <= i < cs.len() && 0 <= m < cs[i]@.len()
            implies st.idx().contains_key(#[trigger] cs[i]@[m]) by {
            if i < c {
                assert(cs[i] == cs0[i]);
            } else {
                assert(cs[i]@[m] == s0[s0.len() - 1 - m]);
                assert(old(st).stack@[s0.len() - 1 - m] == s0[s0.len() - 1 - m]);
            }
        }
        assert forall|k: int, i: int, m: int| 0 <= k < st.stack@.len() && 0 <= i < cs.len()
            && 0 <= m < cs[i]@.len() implies #[trigger] st.stack@[k] != #[trigger] cs[i]@[m] by {
            if i < c {
                assert(cs[i] == cs0[i]);
                assert(st.stack@[k] == s0[k]);
                assert(old(st).stack@[k] == s0[k]);
            } else {
                assert(cs[i]@[m] == s0[s0.len() - 1 - m]);
                assert(st.stack@[k] == s0[k]);
            }
        }
        assert forall|i: int, m: int, x: i64| 0 <= i < cs.len() && 0 <= m < cs[i]@.len()
            && #[trigger] g.next(true, cs[i]@[m]).contains(x)
            implies st.ntc().contains_key(x) && st.ntc()[x] <= i by {
            if i < c {
                assert(cs[i] == cs0[i]);
            } else {
                let p = s0.len() - 1 - m;
                assert(cs[i]@[m] == s0[p]);
                if !(ntc0.contains_key(x) && ntc0[x] < c) {
                    let q = choose|q: int| base <= q < s0.len() && s0[q] == x;
                    assert(comp.contains(x));
                }
            }
        }
        assert forall|x: i64| #[trigger] st.ntc().contains_key(x)
            implies st.ntc()[x] < cs.len() && cs[st.ntc()[x] as int]@.contains(x) by {
            if ntc0.contains_key(x) {
                assert(cs[ntc0[x] as int] == cs0[ntc0[x] as int]);
            }
        }
        assert(st.reach_ok(g)) by {
            reveal(Tarjan::reach_ok);
            assert forall|k: int| 0 <= k < st.stack@.len() implies low_witnessed(g, *st, #[trigger] st.stack@[k]) by {
                assert(low_witnessed(g, st_pre, st_pre.stack@[k]));
            }
            assert forall|i: int, m: int| 0 <= i < cs.len() && 0 <= m < cs[i]@.len()
                implies g.reaches(true, #[trigger] cs[i]@[m], cs[i]@.last()) && g.reaches(true, cs[i]@.last(), cs[i]@[m]) by {
                if i < c {
                    assert(cs[i] == cs0[i]);
                    assert(st_pre.components@[i] == cs0[i]);
                } else {
                    assert(cs[i]@[m] == s0[s0.len() - 1 - m]);
                    assert(cs[i]@.last() == v);
                }
            }
        }
        assert(st.components@.subrange(0, c as int) =~= cs0);
        assert(comp.contains(v)) by {
            assert(comp[comp.len() - 1] == v);
        }
        assert(st.stack@.subrange(0, entry.stack@.len() as int) =~= entry.stack@);
        assert(grows(entry, *st));
    }
}

/// The position of an entity among the entities.
fn index_of_entity(g: &CallGraph, index_of: &HashMap<i64, usize>, v: i64) -> (i: usize)
    requires
        g.wf(),
        forall|x: i64| #[trigger] index_of@.contains_key(x) <==> node_pos(g.nodes@, x) is Some,
        forall|x: i64| #[trigger] index_of@.contains_key(x) ==> node_pos(g.nodes@, x) == Some(index_of@[x] as int),
        g.nodes@.contains(v),
    ensures
        i < g.outgoing@.len(),
        g.outgoing@[i as int]@ == g.next(true, v),
        forall|k: int| 0 <= k < g.outgoing@[i as int]@.len() ==> g.nodes@.contains(#[trigger] g.outgoing@[i as int]@[k]),
{
    proof {
        crate::call_graph::lemma_pos_of_contained(g.nodes@, v);
        crate::call_graph::lemma_node_pos::<i64>(g.nodes@, v);
    }
    let i = *index_of.get(&v).unwrap();
    proof {
        assert forall|k: int| 0 <= k < g.outgoing@[i as int]@.len() implies g.nodes@.contains(#[trigger] g.outgoing@[i as int]@[k]) by {
            assert(g.nodes@.contains(g.outgoing@[i as int]@[k]));
        }
    }
    i
}

/// The strongly connected components of the call graph, by Tarjan's
/// algorithm started from each entity not yet numbered, in entity order.
/// Every component is non-empty, its members are entities, and each member
/// is recorded under its component's position; every entity is in one, and
/// each call goes to the caller's component or to one completed before it.
pub fn strongly_connected_components(g: &CallGraph) -> (r: SccResult)
    requires
        g.wf(),
    ensures
        components_ok(g, r.components@, r.ntc()),
        scc_ordered(g, r.components@, r.ntc()),
        components_connected(g, r.components@),
{
    let index_of = node_index(g);
    let mut st = Tarjan {
        index: 0,
        stack: Vec::new(),
        on_stack: HashSet::new(),
        indices: pos_map_new(),
        lowlinks: pos_map_new(),
        components: Vec::new(),
        node_to_component: pos_map_new(),
    };
    proof {
        assert(st.idx().dom() =~= Set::<i64>::empty());
        assert(st.low().dom() =~= Set::<i64>::empty());
        assert(st.reach_ok(g)) by {
            reveal(Tarjan::reach_ok);
        }
    }
    let mut i: usize = 0;
    while i < g.nodes.len()
        invariant
            g.wf(),
            forall|x: i64| #[trigger] index_of@.contains_key(x) <==> node_pos(g.nodes@, x) is Some,
            forall|x: i64| #[trigger] index_of@.contains_key(x) ==> node_pos(g.nodes@, x) == Some(index_of@[x] as int),
            st.inv(g),
            st.stack@.len() == 0,
            i <= g.nodes@.len(),
            forall|k: int| 0 <= k < i ==> st.idx().contains_key(#[trigger] g.nodes@[k]),
        decreases g.nodes@.len() - i,
    {
        let node = g.nodes[i];
        if !pos_map_contains(&st.indices, node) {
            let ghost before = st;
            strongconnect(g, &index_of, node, &mut st);
            proof {
                assert forall|k: int| 0 <= k < i + 1 implies st.idx().contains_key(#[trigger] g.nodes@[k]) by {
                    if k < i {
                        assert(before.idx().contains_key(g.nodes@[k]));
                    }
                }
            }
        }
        i = i + 1;
    }
    proof {
        let cs = st.components@;
        let ntc = st.ntc();
        assert forall|x: i64| #[trigger] g.nodes@.contains(x) implies ntc.contains_key(x) by {
            let k = choose|k: int| 0 <= k < g.nodes@.len() && g.nodes@[k] == x;
            assert(st.idx().contains_key(g.nodes@[k]));
        }
        assert forall|u: i64, w: i64| #![trigger g.next(true, u).contains(w)]
            ntc.contains_key(u) && g.next(true, u).contains(w) implies ntc.contains_key(w) && ntc[w] <= ntc[u] by {
            let m = choose|m: int| 0 <= m < cs[ntc[u] as int]@.len() && cs[ntc[u] as int]@[m] == u;
            assert(g.next(true, cs[ntc[u] as int]@[m]).contains(w));
        }
        assert(components_connected(g, cs)) by {
            reveal(Tarjan::reach_ok);
            assert forall|i: int, a: int, b: int| 0 <= i < cs.len() && 0 <= a < cs[i]@.len() && 0 <= b < cs[i]@.len()
                implies g.reaches(true, #[trigger] cs[i]@[a], #[trigger] cs[i]@[b]) by {
                assert(g.reaches(true, cs[i]@[a], cs[i]@.last()));
                assert(g.reaches(true, cs[i]@.last(), cs[i]@[b]));
                lemma_reaches_trans(g, true, cs[i]@[a], cs[i]@.last(), cs[i]@[b]);
            }
        }
    }
    SccResult { components: st.components, node_to_component: st.node_to_component }
}

/// Along a walk of calls from an entity in a component, every id is in a
/// component, and the last one's position is no greater than the first's.
pub proof fn lemma_walk_descends(g: &CallGraph, cs: Seq<Vec<i64>>, ntc: Map<i64, usize>, p: Seq<i64>)
    requires
        scc_ordered(g, cs, ntc),
        g.is_walk(true, p),
        ntc.contains_key(p[0]),
    ensures
        ntc.contains_key(p.last()),
        ntc[p.last()] <= ntc[p[0]],
    decreases p.len(),
{
    if p.len() > 1 {
        let q = p.drop_last();
        assert(g.is_walk(true, q)) by {
            assert forall|k: int| 0 <= k < q.len() - 1 implies #[trigger] g.walk_step(true, q, k) by {
                assert(g.walk_step(true, p, k));
            }
        }
        lemma_walk_descends(g, cs, ntc, q);
        assert(g.walk_step(true, p, p.len() - 2));
        assert(g.next(true, q.last()).contains(p.last()));
    }
}

/// Entities that reach each other along calls are in one component: the
/// components are as large as they can be.
pub proof fn lemma_mutual_reach_same_component(g: &CallGraph, cs: Seq<Vec<i64>>, ntc: Map<i64, usize>, u: i64, w: i64)
    requires
        scc_ordered(g, cs, ntc),
        g.nodes@.contains(u),
        g.reaches(true, u, w),
        g.reaches(true, w, u),
    ensures
        ntc.contains_key(u),
        ntc.contains_key(w),
        ntc[u] == ntc[w],
        cs[ntc[u] as int]@.contains(u),
        cs[ntc[u] as int]@.contains(w),
{
    let p = choose|p: Seq<i64>| #[trigger] g.is_walk(true, p) && p[0] == u && p.last() == w;
    lemma_walk_descends(g, cs, ntc, p);
    let q = choose|q: Seq<i64>| #[trigger] g.is_walk(true, q) && q[0] == w && q.last() == u;
    lemma_walk_descends(g, cs, ntc, q);
}

/// Two entities are in one component exactly when each reaches the other
/// along calls: the components are the strongly connected components.
pub proof fn lemma_same_component_iff_mutual_reach(
    g: &CallGraph,
    cs: Seq<Vec<i64>>,
    ntc: Map<i64, usize>,
    u: i64,
    w: i64,
)
    requires
        components_ok(g, cs, ntc),
        scc_ordered(g, cs, ntc),
        components_connected(g, cs),
        g.nodes@.contains(u),
        g.nodes@.contains(w),
    ensures
        ntc.contains_key(u),
        ntc.contains_key(w),
        ntc[u] == ntc[w] <==> (g.reaches(true, u, w) && g.reaches(true, w, u)),
{
    if g.reaches(true, u, w) && g.reaches(true, w, u) {
        lemma_mutual_reach_same_component(g, cs, ntc, u, w);
    }
    if ntc[u] == ntc[w] {
        let i = ntc[u] as int;
        let a = choose|a: int| 0 <= a < cs[i]@.len() && cs[i]@[a] == u;
        let b = choose|b: int| 0 <= b < cs[i]@.len() && cs[i]@[b] == w;
        assert(g.reaches(true, cs[i]@[a], cs[i]@[b]));
        assert(g.reaches(true, cs[i]@[b], cs[i]@[a]));
    }
}

/// Lexicographic order on pairs.
pub open spec fn pair_lt(a: (i64, i64), b: (i64, i64)) -> bool {
    a.0 < b.0 || (a.0 == b.0 && a.1 < b.1)
}

/// Strictly increasing, so sorted and without repeats.
pub open spec fn strictly_sorted(s: Seq<(i64, i64)>) -> bool {
    forall|i: int, j: int| 0 <= i < j < s.len() ==> pair_lt(#[trigger] s[i], #[trigger] s[j])
}

/// Inserts `p` into the strictly sorted `v` unless it is already there.
fn insert_sorted(v: &mut Vec<(i64, i64)>, p: (i64, i64))
    requires
        strictly_sorted(old(v)@),
    ensures
        strictly_sorted(final(v)@),
        forall|q: (i64, i64)| final(v)@.contains(q) <==> (old(v)@.contains(q) || q == p),
{
    let mut i: usize = 0;
    while i < v.len() && (v[i].0 < p.0 || (v[i].0 == p.0 && v[i].1 < p.1))
        invariant
            i <= v@.len(),
            strictly_sorted(v@),
            v@ == old(v)@,
            forall|k: int| 0 <= k < i ==> pair_lt(#[trigger] v@[k], p),
        decreases v@.len() - i,
    {
        i = i + 1;
    }
    if i < v.len() && v[i].0 == p.0 && v[i].1 == p.1 {
        assert(v@[i as int] == p);
        assert(v@.contains(p));
        return;
    }
    let ghost before = v@;
    v.insert(i, p);
    proof {
        assert forall|a: int, b: int| 0 <= a < b < v@.len() implies pair_lt(#[trigger] v@[a], #[trigger] v@[b]) by {
            if a < i && b < i {
                assert(v@[a] == before[a] && v@[b] == before[b]);
            } else if a < i && b == i {
            } else if a < i && b > i {
                assert(v@[b] == before[b - 1]);
                assert(pair_lt(before[a], before[b - 1]));
            } else if a == i {
                assert(v@[b] == before[b - 1]);
                if b - 1 > i {
                    assert(pair_lt(before[i as int], before[b - 1]));
                }
            } else {
                assert(v@[a] == before[a - 1] && v@[b] == before[b - 1]);
            }
        }
        assert(before == old(v)@);
        assert forall|q: (i64, i64)| #[trigger] v@.contains(q) <==> (old(v)@.contains(q) || q == p) by {
            if v@.contains(q) {
                let k = choose|k: int| 0 <= k < v@.len() && v@[k] == q;
                if k < i {
                    assert(before[k] == q);
                } else if k > i {
                    assert(before[k - 1] == q);
                }
            }
            if before.contains(q) {
                let k = choose|k: int| 0 <= k < before.len() && before[k] == q;
                if k < i {
                    assert(v@[k] == q);
                } else {
                    assert(v@[k + 1] == q);
                }
            }
            if q == p {
                assert(v@[i as int] == p);
            }
        }
    }
}

/// The components collapsed: each represented by its first member.
#[derive(Debug)]
pub struct SccCollapse {
    /// The representative of each entity in a component.
    pub node_to_supernode: AHashMap<i64, i64>,
    /// Each component's representative with its members.
    pub supernode_members: Vec<(i64, Vec<i64>)>,
    /// The edges between different components, sorted, each once.
    pub supernode_edges: Vec<(i64, i64)>,
    /// Number of components.
    pub num_sccs: usize,
}

impl SccCollapse {
    /// The representative recorded for each entity.
    pub open spec fn supernode_of(&self) -> Map<i64, i64> {
        id_map_contents(self.node_to_supernode)
    }
}

/// The members of the components, one after the other.
pub open spec fn members_of(cs: Seq<Vec<i64>>) -> Seq<i64>
    decreases cs.len(),
{
    if cs.len() == 0 { seq![] } else { members_of(cs.drop_last()) + cs.last()@ }
}

/// The edge between the components of `v` and `w`, when `w` is a callee of
/// `v`, both are in components and the components differ.
pub open spec fn is_collapsed_edge(g: &CallGraph, rep: Map<i64, i64>, e: (i64, i64)) -> bool {
    exists|v: i64, w: i64| #![trigger g.next(true, v).contains(w), rep[v], rep[w]]
        rep.contains_key(v) && rep.contains_key(w) && g.next(true, v).contains(w)
        && rep[v] != rep[w] && e == (rep[v], rep[w])
}

/// The components of the graph collapsed to their first members, with the
/// edges between them (see `is_collapsed_edge`), sorted and each once.
pub fn collapse_sccs(g: &CallGraph, scc: &SccResult) -> (r: SccCollapse)
    requires
        g.wf(),
        components_ok(g, scc.components@, scc.ntc()),
    ensures
        r.num_sccs == scc.components@.len(),
        r.supernode_members@.len() == scc.components@.len(),
        forall|i: int| 0 <= i < scc.components@.len() ==> (#[trigger] r.supernode_members@[i]).0 == scc.components@[i]@[0]
            && r.supernode_members@[i].1@ == scc.components@[i]@,
        forall|v: i64| #[trigger] r.supernode_of().contains_key(v) <==> members_of(scc.components@).contains(v),
        forall|v: i64| #[trigger] r.supernode_of().contains_key(v) ==> scc.ntc().contains_key(v)
            && scc.ntc()[v] < scc.components@.len()
            && r.supernode_of()[v] == scc.components@[scc.ntc()[v] as int]@[0],
        strictly_sorted(r.supernode_edges@),
        forall|e: (i64, i64)| r.supernode_edges@.contains(e) <==> is_collapsed_edge(g, r.supernode_of(), e),
{
    let index_of = node_index(g);
    let comps = &scc.components;
    let mut rep: AHashMap<i64, i64> = id_map_new();
    let mut members: Vec<(i64, Vec<i64>)> = Vec::new();
    let mut flat: Vec<i64> = Vec::new();
    let mut i: usize = 0;
    while i < comps.len()
        invariant
            i <= comps@.len(),
            comps == &scc.components,
            components_ok(g, scc.components@, scc.ntc()),
            members@.len() == i,
            forall|a: int| 0 <= a < i ==> (#[trigger] members@[a]).0 == comps@[a]@[0] && members@[a].1@ == comps@[a]@,
            flat@ == members_of(comps@.take(i as int)),
            forall|v: i64| #[trigger] id_map_contents(rep).contains_key(v) <==> flat@.contains(v),
            forall|k: int| 0 <= k < flat@.len() ==> g.nodes@.contains(#[trigger] flat@[k]),
            forall|v: i64| #[trigger] id_map_contents(rep).contains_key(v) ==> scc.ntc().contains_key(v)
                && scc.ntc()[v] < comps@.len()
                && id_map_contents(rep)[v] == comps@[scc.ntc()[v] as int]@[0],
        decreases comps@.len() - i,
    {
        let comp = &comps[i];
        assert(comp@.len() > 0);
        let r0 = comp[0];
        let mut m: usize = 0;
        let ghost flat0 = flat@;
        while m < comp.len()
            invariant
                m <= comp@.len(),
                flat@ == flat0 + comp@.take(m as int),
                forall|v: i64| #[trigger] id_map_contents(rep).contains_key(v) <==> flat@.contains(v),
                forall|k: int| 0 <= k < flat@.len() ==> g.nodes@.contains(#[trigger] flat@[k]),
                forall|k: int| 0 <= k < comp@.len() ==> g.nodes@.contains(#[trigger] comp@[k]),
                i < comps@.len(),
                comp == &comps@[i as int],
                r0 == comp@[0],
                comps == &scc.components,
                components_ok(g, scc.components@, scc.ntc()),
                forall|v: i64| #[trigger] id_map_contents(rep).contains_key(v) ==> scc.ntc().contains_key(v)
                    && scc.ntc()[v] < comps@.len()
                    && id_map_contents(rep)[v] == comps@[scc.ntc()[v] as int]@[0],
            decreases comp@.len() - m,
        {
            let ghost f0 = flat@;
            id_map_insert(&mut rep, comp[m], r0);
            flat.push(comp[m]);
            proof {
                assert(flat@ =~= flat0 + comp@.take(m + 1));
                assert forall|v: i64| #[trigger] id_map_contents(rep).contains_key(v) <==> flat@.contains(v) by {
                    if f0.contains(v) {
                        let k = choose|k: int| 0 <= k < f0.len() && f0[k] == v;
                        assert(flat@[k] == v);
                    }
                    if flat@.contains(v) {
                        let k = choose|k: int| 0 <= k < flat@.len() && flat@[k] == v;
                        if k < f0.len() {
                            assert(f0[k] == v);
                        }
                    }
                    if v == comp@[m as int] {
                        assert(flat@[flat@.len() - 1] == v);
                    }
                }
            }
            m = m + 1;
        }
        members.push((r0, comp.clone()));
        proof {
            assert(comp@.take(comp@.len() as int) =~= comp@);
            assert(comps@.take(i + 1).drop_last() =~= comps@.take(i as int));
        }
        i = i + 1;
    }
    assert(comps@.take(comps@.len() as int) =~= comps@);
    let mut edges: Vec<(i64, i64)> = Vec::new();
    let mut k: usize = 0;
    while k < flat.len()
        invariant
            g.wf(),
            forall|x: i64| #[trigger] index_of@.contains_key(x) <==> node_pos(g.nodes@, x) is Some,
            forall|x: i64| #[trigger] index_of@.contains_key(x) ==> node_pos(g.nodes@, x) == Some(index_of@[x] as int),
            k <= flat@.len(),
            forall|v: i64| #[trigger] id_map_contents(rep).contains_key(v) <==> flat@.contains(v),
            forall|q: int| 0 <= q < flat@.len() ==> g.nodes@.contains(#[trigger] flat@[q]),
            strictly_sorted(edges@),
            forall|e: (i64, i64)| edges@.contains(e) ==> is_collapsed_edge(g, id_map_contents(rep), e),
            forall|q: int, w: i64| 0 <= q < k && #[trigger] g.next(true, flat@[q]).contains(w) && id_map_contents(rep).contains_key(w)
                && id_map_contents(rep)[flat@[q]] != id_map_contents(rep)[w] ==> edges@.contains((id_map_contents(rep)[flat@[q]], id_map_contents(rep)[w])),
        decreases flat@.len() - k,
    {
        let v = flat[k];
        proof {
            crate::call_graph::lemma_pos_of_contained(g.nodes@, v);
            assert(id_map_contents(rep).contains_key(v)) by {
                assert(flat@[k as int] == v);
            }
        }
        let rv = id_map_get(&rep, v).unwrap();
        proof {
            crate::call_graph::lemma_node_pos::<i64>(g.nodes@, v);
        }
        let vi = *index_of.get(&v).unwrap();
        let ns = &g.outgoing[vi];
        let mut j: usize = 0;
        while j < ns.len()
            invariant
                k < flat@.len(),
                v == flat@[k as int],
                id_map_contents(rep).contains_key(v),
                rv == id_map_contents(rep)[v],
                ns@ == g.next(true, v),
                j <= ns@.len(),
                strictly_sorted(edges@),
                forall|e: (i64, i64)| edges@.contains(e) ==> is_collapsed_edge(g, id_map_contents(rep), e),
                forall|q: int, w: i64| 0 <= q < k && #[trigger] g.next(true, flat@[q]).contains(w) && id_map_contents(rep).contains_key(w)
                    && id_map_contents(rep)[flat@[q]] != id_map_contents(rep)[w] ==> edges@.contains((id_map_contents(rep)[flat@[q]], id_map_contents(rep)[w])),
                forall|a: int| 0 <= a < j && id_map_contents(rep).contains_key(#[trigger] ns@[a]) && rv != id_map_contents(rep)[ns@[a]]
                    ==> edges@.contains((rv, id_map_contents(rep)[ns@[a]])),
            decreases ns@.len() - j,
        {
            let w = ns[j];
            if let Some(rw) = id_map_get(&rep, w) {
                if rv != rw {
                    let ghost before = edges@;
                    proof {
                        assert(ns@.contains(w)) by {
                            assert(ns@[j as int] == w);
                        }
                        assert(is_collapsed_edge(g, id_map_contents(rep), (rv, rw)));
                    }
                    insert_sorted(&mut edges, (rv, rw));
                    proof {
                        assert forall|e: (i64, i64)| edges@.contains(e) implies is_collapsed_edge(g, id_map_contents(rep), e) by {
                            if before.contains(e) {
                            }
                        }
                    }
                }
            }
            j = j + 1;
        }
        proof {
            assert forall|w: i64| #[trigger] g.next(true, flat@[k as int]).contains(w) && id_map_contents(rep).contains_key(w)
                && id_map_contents(rep)[flat@[k as int]] != id_map_contents(rep)[w] implies edges@.contains((id_map_contents(rep)[flat@[k as int]], id_map_contents(rep)[w])) by {
                let a = choose|a: int| 0 <= a < ns@.len() && ns@[a] == w;
            }
        }
        k = k + 1;
    }
    proof {
        assert forall|e: (i64, i64)| is_collapsed_edge(g, id_map_contents(rep), e) implies edges@.contains(e) by {
            let (v, w) = choose|v: i64, w: i64| #![trigger g.next(true, v).contains(w), id_map_contents(rep)[v], id_map_contents(rep)[w]]
                id_map_contents(rep).contains_key(v) && id_map_contents(rep).contains_key(w) && g.next(true, v).contains(w)
                && id_map_contents(rep)[v] != id_map_contents(rep)[w] && e == (id_map_contents(rep)[v], id_map_contents(rep)[w]);
            let q = choose|q: int| 0 <= q < flat@.len() && flat@[q] == v;
            assert(g.next(true, flat@[q]).contains(w));
        }
    }
    SccCollapse { node_to_supernode: rep, supernode_members: members, supernode_edges: edges, num_sccs: comps.len() }
}
} // verus!
