//! Enumeration of call paths by a bounded depth-first search: each path
//! starts at the entry and follows calls until it reaches an exit (or, with
//! no exits given, a symbol that calls nothing), within a depth limit, a
//! limit on the paths kept and a limit on how often a path may pass through
//! the same symbol.

use vstd::prelude::*;
use std::collections::HashMap;
use ahash::{AHashMap, AHashSet};
use crate::id_tables::{pos_map_contents, pos_map_new, pos_map_insert, pos_map_get, id_set_contents, id_set_new, id_set_insert, id_set_contains};
use crate::call_graph::{CallGraph, node_index, node_pos, neighbours};
use crate::algorithms::{CodeGraph, GraphQueryError, SymbolInfo, SymbolView, views, member_views};
use crate::order::{seq_lt, lemma_seq_lt_transitive, lemma_seq_lt_irreflexive, str_lt, stable_sorted, lemma_insert_pos, lemma_stable_sorted_step};
use crate::text::str_eq;

verus! {

broadcast use vstd::std_specs::hash::group_hash_axioms;

/// The bounds of a search.
#[derive(Debug, Clone)]
pub struct PathEnumerationConfig {
    /// Paths of more calls than this are cut off.
    pub max_depth: usize,
    /// At most this many paths are kept.
    pub max_paths: usize,
    /// A path passes through one id at most this many times.
    pub revisit_cap: usize,
    /// Where paths end, if given; otherwise at ids that call nothing.
    pub exit_nodes: Option<AHashSet<i64>>,
}

/// What a search found.
#[derive(Debug, Clone)]
pub struct PathSearch {
    /// The paths kept, in the order found.
    pub paths: Vec<Vec<i64>>,
    /// How many paths were found, kept or not.
    pub total_found: usize,
    /// How many times the depth limit cut a path off.
    pub pruned_by_bounds: usize,
}

/// A search's findings as values.
pub struct SearchView {
    pub paths: Seq<Seq<i64>>,
    pub total: nat,
    pub pruned: nat,
}

impl PathSearch {
    pub open spec fn view_of(&self) -> SearchView {
        SearchView {
            paths: self.paths@.map_values(|p: Vec<i64>| p@),
            total: self.total_found as nat,
            pruned: self.pruned_by_bounds as nat,
        }
    }
}

/// One more, without going past the largest `usize`.
pub open spec fn sat_inc(x: nat) -> nat {
    if x < usize::MAX { x + 1 } else { x }
}

/// How many times `v` occurs in `p`.
pub open spec fn count_in(p: Seq<i64>, v: i64) -> nat
    decreases p.len(),
{
    if p.len() == 0 {
        0
    } else {
        count_in(p.drop_last(), v) + if p.last() == v { 1nat } else { 0nat }
    }
}

/// The depth left before the limit.
pub open spec fn depth_left(max_depth: usize, p: Seq<i64>) -> nat {
    if p.len() <= max_depth + 1 { (max_depth + 1 - p.len()) as nat } else { 0 }
}

/// A path found: kept if there is room, counted either way.
pub open spec fn record_path(acc: SearchView, p: Seq<i64>, max_paths: usize) -> SearchView {
    SearchView {
        paths: if acc.paths.len() < max_paths { acc.paths.push(p) } else { acc.paths },
        total: sat_inc(acc.total),
        pruned: acc.pruned,
    }
}

/// Whether `v` is an exit.
pub open spec fn is_exit(exits: Option<Set<i64>>, v: i64) -> bool {
    exits matches Some(xs) && xs.contains(v)
}

/// The search from `node`, reached along `path`, after `acc` was found:
/// a node the path already passes through `revisit_cap` times is skipped;
/// a path at the depth limit is cut off; a path ending at an exit (beyond
/// the entry) is found; otherwise each callee is searched in turn, and
/// with no exits given a path ending at a node that calls nothing (beyond
/// the entry) is found.
pub open spec fn dfs_spec(
    g: &CallGraph,
    max_depth: usize,
    max_paths: usize,
    cap: usize,
    exits: Option<Set<i64>>,
    node: i64,
    path: Seq<i64>,
    acc: SearchView,
) -> SearchView
    decreases depth_left(max_depth, path), 0nat, 0nat,
{
    if count_in(path, node) + 1 > cap {
        acc
    } else {
        let p = path.push(node);
        if p.len() > max_depth + 1 {
            SearchView { paths: acc.paths, total: acc.total, pruned: sat_inc(acc.pruned) }
        } else if is_exit(exits, node) && p.len() > 1 {
            record_path(acc, p, max_paths)
        } else {
            let ns = g.next(true, node);
            let after = dfs_list(g, max_depth, max_paths, cap, exits, ns, 0, p, acc);
            if ns.len() == 0 && exits is None && p.len() > 1 { record_path(after, p, max_paths) } else { after }
        }
    }
}

/// The searches from `ns[i..]` in turn, each reached along `p`.
pub open spec fn dfs_list(
    g: &CallGraph,
    max_depth: usize,
    max_paths: usize,
    cap: usize,
    exits: Option<Set<i64>>,
    ns: Seq<i64>,
    i: int,
    p: Seq<i64>,
    acc: SearchView,
) -> SearchView
    decreases depth_left(max_depth, p), 1nat, (if i <= ns.len() { (ns.len() - i) as nat } else { 0nat }),
{
    if i < 0 || i >= ns.len() || p.len() > max_depth + 1 || p.len() == 0 {
        acc
    } else {
        dfs_list(g, max_depth, max_paths, cap, exits, ns, i + 1, p,
            dfs_spec(g, max_depth, max_paths, cap, exits, ns[i], p, acc))
    }
}

/// The exits as values.
pub open spec fn exits_view(c: PathEnumerationConfig) -> Option<Set<i64>> {
    match c.exit_nodes {
        Some(v) => Some(id_set_contents(v)),
        None => None,
    }
}

/// A path passes through each id as many times as the table records
/// (an id without an entry, no times).
pub open spec fn counts_match(m: Map<i64, usize>, p: Seq<i64>) -> bool {
    forall|v: i64| #[trigger] count_in(p, v) == (if m.contains_key(v) { m[v] as nat } else { 0nat })
}

proof fn lemma_count_push(p: Seq<i64>, x: i64, v: i64)
    ensures
        count_in(p.push(x), v) == count_in(p, v) + if x == v { 1nat } else { 0nat },
{
    assert(p.push(x).drop_last() =~= p);
}

/// The number the table records for `v`, none counting as 0.
fn recorded_count(visit_count: &AHashMap<i64, usize>, v: i64) -> (r: usize)
    ensures
        r == (if pos_map_contents(*visit_count).contains_key(v) { pos_map_contents(*visit_count)[v] } else { 0 }),
{
    match pos_map_get(visit_count, v) {
        Some(c) => c,
        None => 0,
    }
}

/// Whether `v` is among the exits.
fn exit_has(exits: &Option<AHashSet<i64>>, v: i64) -> (r: bool)
    ensures
        r == is_exit(match *exits { Some(x) => Some(id_set_contents(x)), None => None }, v),
{
    match exits {
        None => false,
        Some(xs) => id_set_contains(xs, v),
    }
}

/// The count of `node`, last on `path`, taken back as the node leaves it.
fn release(visit_count: &mut AHashMap<i64, usize>, path: &mut Vec<i64>, node: i64)
    requires
        old(path)@.len() > 0,
        old(path)@.last() == node,
        counts_match(pos_map_contents(*old(visit_count)), old(path)@),
    ensures
        final(path)@ == old(path)@.drop_last(),
        counts_match(pos_map_contents(*final(visit_count)), final(path)@),
{
    let ghost p = path@;
    proof {
        assert(p.drop_last().push(node) =~= p);
        lemma_count_push(p.drop_last(), node, node);
    }
    let c = recorded_count(visit_count, node);
    pos_map_insert(visit_count, node, c - 1);
    path.pop();
    proof {
        assert forall|v: i64| #[trigger] count_in(path@, v) == (if pos_map_contents(*visit_count).contains_key(v) { pos_map_contents(*visit_count)[v] as nat } else { 0nat }) by {
            lemma_count_push(path@, node, v);
            assert(count_in(p, v) == count_in(old(path)@, v));
        }
    }
}

/// A path, copied.
fn copy_path(p: &Vec<i64>) -> (r: Vec<i64>)
    ensures
        r@ == p@,
{
    let mut out: Vec<i64> = Vec::new();
    let mut i: usize = 0;
    while i < p.len()
        invariant
            i <= p@.len(),
            out@ == p@.take(i as int),
        decreases p@.len() - i,
    {
        out.push(p[i]);
        assert(p@.take(i + 1) =~= p@.take(i as int).push(p@[i as int]));
        i = i + 1;
    }
    assert(p@.take(p@.len() as int) =~= p@);
    out
}

/// Records a path found.
fn record(st: &mut PathSearch, p: &Vec<i64>, max_paths: usize)
    ensures
        final(st).view_of() == record_path(old(st).view_of(), p@, max_paths),
{
    let ghost before = st.view_of();
    if st.paths.len() < max_paths {
        st.paths.push(copy_path(p));
    }
    if st.total_found < usize::MAX {
        st.total_found = st.total_found + 1;
    }
    assert(st.view_of().paths =~= record_path(before, p@, max_paths).paths);
}

/// The search from `node`, reached along `path`, with `visit_count`
/// recording how often the path passes through each id.
fn dfs(
    g: &CallGraph,
    index: &HashMap<i64, usize>,
    config: &PathEnumerationConfig,
    node: i64,
    path: &mut Vec<i64>,
    visit_count: &mut AHashMap<i64, usize>,
    st: &mut PathSearch,
)
    requires
        g.wf(),
        forall|x: i64| #[trigger] index@.contains_key(x) <==> node_pos(g.nodes@, x) is Some,
        forall|x: i64| #[trigger] index@.contains_key(x) ==> node_pos(g.nodes@, x) == Some(index@[x] as int),
        counts_match(pos_map_contents(*old(visit_count)), old(path)@),
    ensures
        final(path)@ == old(path)@,
        counts_match(pos_map_contents(*final(visit_count)), old(path)@),
        final(st).view_of() == dfs_spec(g, config.max_depth, config.max_paths, config.revisit_cap,
            exits_view(*config), node, old(path)@, old(st).view_of()),
    decreases depth_left(config.max_depth, old(path)@),
{
    let ghost path0 = path@;
    let ghost acc0 = st.view_of();
    let ghost vc0 = pos_map_contents(*visit_count);
    proof {
        assert(count_in(path0, node) == (if vc0.contains_key(node) { vc0[node] as nat } else { 0nat }));
    }
    let c0 = recorded_count(visit_count, node);
    if c0 >= config.revisit_cap {
        return;
    }
    pos_map_insert(visit_count, node, c0 + 1);
    path.push(node);
    let ghost p = path@;
    proof {
        assert forall|v: i64| #[trigger] count_in(p, v) == (if pos_map_contents(*visit_count).contains_key(v) { pos_map_contents(*visit_count)[v] as nat } else { 0nat }) by {
            lemma_count_push(path0, node, v);
            assert(count_in(path0, v) == (if vc0.contains_key(v) { vc0[v] as nat } else { 0nat }));
        }
        assert(p.drop_last() =~= path0);
    }
    if path.len() - 1 > config.max_depth {
        if st.pruned_by_bounds < usize::MAX {
            st.pruned_by_bounds = st.pruned_by_bounds + 1;
        }
        release(visit_count, path, node);
        return;
    }
    if exit_has(&config.exit_nodes, node) && path.len() > 1 {
        record(st, path, config.max_paths);
        release(visit_count, path, node);
        return;
    }
    let empty: Vec<i64> = Vec::new();
    let ns: &Vec<i64> = if index.contains_key(&node) { neighbours(g, index, true, node) } else { &empty };
    proof {
        if !index@.contains_key(node) {
            assert(g.next(true, node) =~= Seq::<i64>::empty());
        }
    }
    let ghost full = dfs_list(g, config.max_depth, config.max_paths, config.revisit_cap, exits_view(*config),
        ns@, 0, p, acc0);
    let mut i: usize = 0;
    while i < ns.len()
        invariant
            g.wf(),
            forall|x: i64| #[trigger] index@.contains_key(x) <==> node_pos(g.nodes@, x) is Some,
            forall|x: i64| #[trigger] index@.contains_key(x) ==> node_pos(g.nodes@, x) == Some(index@[x] as int),
            path@ == p,
            counts_match(pos_map_contents(*visit_count), p),
            p.len() <= config.max_depth + 1,
            p.len() > 0,
            p.last() == node,
            p.drop_last() == path0,
            path0 == old(path)@,
            depth_left(config.max_depth, p) < depth_left(config.max_depth, path0),
            i <= ns@.len(),
            ns@ == g.next(true, node),
            full == dfs_list(g, config.max_depth, config.max_paths, config.revisit_cap, exits_view(*config),
                ns@, i as int, p, st.view_of()),
        decreases ns@.len() - i,
    {
        dfs(g, index, config, ns[i], path, visit_count, st);
        i = i + 1;
    }
    let ghost after = st.view_of();
    assert(after == full);
    if ns.len() == 0 && config.exit_nodes.is_none() && path.len() > 1 {
        record(st, path, config.max_paths);
    }
    release(visit_count, path, node);
}

/// All paths from `entry` within the bounds, in the order found, with the
/// number found and the number cut off at the depth limit.
pub fn enumerate_entity_paths(g: &CallGraph, entry: i64, config: &PathEnumerationConfig) -> (r: PathSearch)
    requires
        g.wf(),
    ensures
        r.view_of() == dfs_spec(g, config.max_depth, config.max_paths, config.revisit_cap,
            exits_view(*config), entry, seq![], SearchView { paths: seq![], total: 0, pruned: 0 }),
{
    let mut st = PathSearch { paths: Vec::new(), total_found: 0, pruned_by_bounds: 0 };
    let index = node_index(g);
    let mut path: Vec<i64> = Vec::new();
    let mut visit_count: AHashMap<i64, usize> = pos_map_new();
    assert(st.view_of() == SearchView { paths: seq![], total: 0, pruned: 0 }) by {
        assert(st.view_of().paths =~= Seq::<Seq<i64>>::empty());
    }
    assert(path@ =~= Seq::<i64>::empty());
    assert(counts_match(pos_map_contents(visit_count), path@));
    dfs(g, &index, config, entry, &mut path, &mut visit_count, &mut st);
    st
}

/// A path through the call graph, as its symbols.
#[derive(Debug, Clone, PartialEq, Eq)]
pub struct ExecutionPath {
    /// The symbols along the path.
    pub symbols: Vec<SymbolInfo>,
    /// How many there are.
    pub length: usize,
}

/// The paths found from a symbol, with what describes them. (The mean
/// length is left to the caller, from the lengths.)
#[derive(Debug, Clone)]
pub struct PathEnumeration {
    /// The paths, by the name of their first symbol (named first), then by
    /// length.
    pub paths: Vec<ExecutionPath>,
    /// How many paths the search found, kept or not.
    pub total_enumerated: usize,
    /// Whether a bound cut any path off: the depth limit, or the limit on
    /// paths kept.
    pub bounded_hit: bool,
    /// The shortest length (0 without paths).
    pub min_length: usize,
    /// The longest length (0 without paths).
    pub max_length: usize,
    /// How many different stable ids the paths' symbols have (a symbol
    /// without one counts as the empty id).
    pub unique_symbols: usize,
}

/// The symbols of each path that has any, in order.
pub open spec fn path_candidates(g: &CodeGraph, ps: Seq<Seq<i64>>) -> Seq<Seq<SymbolView>>
    decreases ps.len(),
{
    if ps.len() == 0 {
        seq![]
    } else {
        let rest = path_candidates(g, ps.drop_last());
        let m = member_views(g, ps.last());
        if m.len() > 0 { rest.push(m) } else { rest }
    }
}

/// The order of paths: by the name of the first symbol, named before
/// unnamed, then by length.
pub open spec fn path_lt(a: Seq<SymbolView>, b: Seq<SymbolView>) -> bool {
    &&& a.len() > 0
    &&& b.len() > 0
    &&& match (a[0].fqn, b[0].fqn) {
        (Some(x), Some(y)) => seq_lt(x, y) || (x == y && a.len() < b.len()),
        (Some(_), None) => true,
        (None, Some(_)) => false,
        (None, None) => a.len() < b.len(),
    }
}

/// Sorted by `path_lt`.
pub open spec fn sorted_paths(s: Seq<Seq<SymbolView>>) -> bool {
    forall|i: int, j: int| 0 <= i < j < s.len() ==> !path_lt(#[trigger] s[j], #[trigger] s[i])
}

proof fn lemma_path_lt_transitive(a: Seq<SymbolView>, b: Seq<SymbolView>, c: Seq<SymbolView>)
    requires
        path_lt(a, b),
        path_lt(b, c),
    ensures
        path_lt(a, c),
{
    if a[0].fqn is Some && b[0].fqn is Some && c[0].fqn is Some {
        let (x, y, z) = (a[0].fqn->0, b[0].fqn->0, c[0].fqn->0);
        if seq_lt(x, y) && seq_lt(y, z) {
            lemma_seq_lt_transitive(x, y, z);
        }
    }
}

proof fn lemma_path_lt_irreflexive(a: Seq<SymbolView>)
    ensures
        !path_lt(a, a),
{
    if a.len() > 0 && a[0].fqn is Some {
        lemma_seq_lt_irreflexive(a[0].fqn->0);
    }
}

/// The stable id of a symbol, empty where it has none.
pub open spec fn sid_or_empty(s: SymbolView) -> Seq<char> {
    match s.symbol_id {
        Some(x) => x,
        None => seq![],
    }
}

/// The stable ids of all the symbols of the paths, in order.
pub open spec fn all_sids(cs: Seq<Seq<SymbolView>>) -> Seq<Seq<char>>
    decreases cs.len(),
{
    if cs.len() == 0 { seq![] } else { all_sids(cs.drop_last()) + cs.last().map_values(|s: SymbolView| sid_or_empty(s)) }
}

/// The shortest length (0 without paths).
pub open spec fn min_len(cs: Seq<Seq<SymbolView>>) -> nat
    decreases cs.len(),
{
    if cs.len() == 0 {
        0
    } else if cs.len() == 1 {
        cs[0].len()
    } else {
        let m = min_len(cs.drop_last());
        if cs.last().len() < m { cs.last().len() } else { m }
    }
}

/// The longest length (0 without paths).
pub open spec fn max_len(cs: Seq<Seq<SymbolView>>) -> nat
    decreases cs.len(),
{
    if cs.len() == 0 {
        0
    } else {
        let m = max_len(cs.drop_last());
        if cs.last().len() > m { cs.last().len() } else { m }
    }
}

/// The symbols of each path.
pub open spec fn epath_views(s: Seq<ExecutionPath>) -> Seq<Seq<SymbolView>> {
    s.map_values(|p: ExecutionPath| views(p.symbols@))
}

/// What the paths found under search result `found` come to.
pub open spec fn enumeration_ok(g: &CodeGraph, found: SearchView, r: PathEnumeration) -> bool {
    let cs = path_candidates(g, found.paths);
    &&& sorted_paths(epath_views(r.paths@))
    &&& epath_views(r.paths@).to_multiset() == cs.to_multiset()
    &&& forall|i: int| 0 <= i < r.paths@.len() ==> (#[trigger] r.paths@[i]).length == r.paths@[i].symbols@.len()
    &&& r.total_enumerated == found.total
    &&& r.bounded_hit == (found.pruned > 0 || found.total > found.paths.len())
    &&& r.min_length == min_len(cs)
    &&& r.max_length == max_len(cs)
    &&& r.unique_symbols == all_sids(cs).to_set().len()
}

/// Inserting an element anywhere adds it to the multiset of elements.
proof fn lemma_insert_ms<A>(s: Seq<A>, i: int, x: A)
    requires
        0 <= i <= s.len(),
    ensures
        s.insert(i, x).to_multiset() == s.to_multiset().insert(x),
{
    broadcast use vstd::seq_lib::group_to_multiset_ensures;
    let t = s.insert(i, x);
    assert(t.remove(i) =~= s);
    assert(t[i] == x);
    assert(t.contains(x));
    assert(t.to_multiset() =~= t.to_multiset().remove(x).insert(x));
}

/// Whether path `a` comes before path `b`.
fn epath_lt(a: &ExecutionPath, b: &ExecutionPath) -> (r: bool)
    ensures
        r == path_lt(views(a.symbols@), views(b.symbols@)),
{
    if a.symbols.len() == 0 || b.symbols.len() == 0 {
        return false;
    }
    match (&a.symbols[0].fqn, &b.symbols[0].fqn) {
        (Some(x), Some(y)) => str_lt(x.as_str(), y.as_str()) || (str_eq(x.as_str(), y.as_str()) && a.symbols.len() < b.symbols.len()),
        (Some(_), None) => true,
        (None, Some(_)) => false,
        (None, None) => a.symbols.len() < b.symbols.len(),
    }
}

/// `path_lt` as a value.
pub open spec fn path_order() -> spec_fn(Seq<SymbolView>, Seq<SymbolView>) -> bool {
    |a: Seq<SymbolView>, b: Seq<SymbolView>| path_lt(a, b)
}

/// Sorts paths by `path_lt`, keeping equal ones in the order they came.
fn sort_paths(v: Vec<ExecutionPath>) -> (r: Vec<ExecutionPath>)
    requires
        forall|i: int| 0 <= i < v@.len() ==> (#[trigger] v@[i]).length == v@[i].symbols@.len(),
    ensures
        sorted_paths(epath_views(r@)),
        epath_views(r@).to_multiset() == epath_views(v@).to_multiset(),
        forall|i: int| 0 <= i < r@.len() ==> (#[trigger] r@[i]).length == r@[i].symbols@.len(),
        epath_views(r@) == stable_sorted(epath_views(v@), path_order()),
{
    broadcast use vstd::seq_lib::group_to_multiset_ensures;
    let mut v = v;
    let ghost orig = epath_views(v@);
    let ghost n = v@.len();
    let mut out: Vec<ExecutionPath> = Vec::new();
    assert(epath_views(out@) =~= orig.take(0));
    assert(orig.skip(0) =~= orig);
    while v.len() > 0
        invariant
            v@.len() <= n,
            orig.len() == n,
            epath_views(v@) == orig.skip(n - v@.len()),
            forall|i: int| 0 <= i < v@.len() ==> (#[trigger] v@[i]).length == v@[i].symbols@.len(),
            forall|i: int| 0 <= i < out@.len() ==> (#[trigger] out@[i]).length == out@[i].symbols@.len(),
            sorted_paths(epath_views(out@)),
            epath_views(out@).to_multiset() == orig.take(n - v@.len()).to_multiset(),
            epath_views(out@) == stable_sorted(orig.take(n - v@.len()), path_order()),
        decreases v@.len(),
    {
        let ghost done = n - v@.len();
        let ghost vv = v@;
        let x = v.remove(0);
        let ghost xv = views(x.symbols@);
        proof {
            assert(epath_views(vv)[0] == xv);
            assert(orig[done] == xv);
            assert(v@ =~= vv.remove(0));
            assert forall|k: int| 0 <= k < v@.len() implies epath_views(v@)[k] == orig.skip(done + 1)[k] by {
                assert(v@[k] == vv[k + 1]);
                assert(epath_views(vv)[k + 1] == orig.skip(done)[k + 1]);
            }
            assert(epath_views(v@) =~= orig.skip(done + 1));
            assert(orig.take(done + 1) =~= orig.take(done).push(xv));
            assert forall|k: int| 0 <= k < v@.len() implies (#[trigger] v@[k]).length == v@[k].symbols@.len() by {
                assert(v@[k] == vv[k + 1]);
            }
            assert(x.length == x.symbols@.len()) by {
                assert(vv[0] == x);
            }
        }
        let mut i: usize = 0;
        while i < out.len() && !epath_lt(&x, &out[i])
            invariant
                i <= out@.len(),
                xv == views(x.symbols@),
                forall|a: int| 0 <= a < i ==> !path_lt(xv, #[trigger] epath_views(out@)[a]),
            decreases out@.len() - i,
        {
            i = i + 1;
        }
        let ghost before = epath_views(out@);
        let ghost oldout = out@;
        out.insert(i, x);
        proof {
            let now = epath_views(out@);
            assert(now =~= before.insert(i as int, xv));
            lemma_insert_ms(before, i as int, xv);
            vstd::seq_lib::to_multiset_build(orig.take(done), xv);
            lemma_insert_pos(before, xv, path_order(), i as int);
            lemma_stable_sorted_step(orig, done, path_order());
            assert forall|k: int| 0 <= k < out@.len() implies (#[trigger] out@[k]).length == out@[k].symbols@.len() by {
                if k < i {
                    assert(out@[k] == oldout[k]);
                } else if k > i {
                    assert(out@[k] == oldout[k - 1]);
                }
            }
            assert forall|a: int, b: int| 0 <= a < b < now.len() implies !path_lt(#[trigger] now[b], #[trigger] now[a]) by {
                if b < i {
                    assert(now[a] == before[a] && now[b] == before[b]);
                } else if b == i {
                    assert(now[a] == before[a]);
                } else if a < i {
                    assert(now[a] == before[a] && now[b] == before[b - 1]);
                } else if a == i {
                    assert(now[b] == before[b - 1]);
                    assert(path_lt(xv, before[i as int]));
                    if path_lt(before[b - 1], xv) {
                        lemma_path_lt_transitive(before[b - 1], xv, before[i as int]);
                        if b - 1 == i {
                            lemma_path_lt_irreflexive(before[i as int]);
                        }
                    }
                } else {
                    assert(now[a] == before[a - 1] && now[b] == before[b - 1]);
                }
            }
        }
    }
    assert(orig.take(n as int) =~= orig);
    out
}

/// Pushing an element adds it to the set of elements.
proof fn lemma_push_to_set<A>(s: Seq<A>, x: A)
    ensures
        s.push(x).to_set() == s.to_set().insert(x),
{
    let t = s.push(x);
    assert forall|y: A| t.to_set().contains(y) <==> s.to_set().insert(x).contains(y) by {
        if t.contains(y) {
            let k = choose|k: int| 0 <= k < t.len() && t[k] == y;
            if k < s.len() {
                assert(s[k] == y);
            }
        }
        if s.contains(y) {
            let k = choose|k: int| 0 <= k < s.len() && s[k] == y;
            assert(t[k] == y);
        }
        if y == x {
            assert(t[s.len() as int] == y);
        }
    }
    assert(t.to_set() =~= s.to_set().insert(x));
}

/// How many different texts there are among `v`.
fn distinct_count(v: &Vec<String>) -> (r: usize)
    ensures
        r == v@.map_values(|s: String| s@).to_set().len(),
{
    let ghost all = v@.map_values(|s: String| s@);
    let mut seen: Vec<String> = Vec::new();
    let mut i: usize = 0;
    assert(seen@.map_values(|s: String| s@).to_set() =~= all.take(0).to_set());
    while i < v.len()
        invariant
            i <= v@.len(),
            all == v@.map_values(|s: String| s@),
            seen@.map_values(|s: String| s@).no_duplicates(),
            seen@.map_values(|s: String| s@).to_set() == all.take(i as int).to_set(),
        decreases v@.len() - i,
    {
        let ghost sv = seen@.map_values(|s: String| s@);
        let mut j: usize = 0;
        let mut found = false;
        while j < seen.len()
            invariant
                j <= seen@.len(),
                sv == seen@.map_values(|s: String| s@),
                !found ==> forall|k: int| 0 <= k < j ==> sv[k] != v@[i as int]@,
                found ==> sv.contains(v@[i as int]@),
                i < v@.len(),
            decreases seen@.len() - j,
        {
            if str_eq(seen[j].as_str(), v[i].as_str()) {
                found = true;
                assert(sv[j as int] == v@[i as int]@);
            }
            j = j + 1;
        }
        proof {
            let t1 = all.take(i + 1);
            let t0 = all.take(i as int);
            assert(t1 =~= t0.push(all[i as int]));
            assert(t1.to_set() =~= t0.to_set().insert(all[i as int])) by {
                assert forall|x: Seq<char>| t1.to_set().contains(x) <==> t0.to_set().insert(all[i as int]).contains(x) by {
                    if t1.contains(x) {
                        let k = choose|k: int| 0 <= k < t1.len() && t1[k] == x;
                        if k < i {
                            assert(t0[k] == x);
                        }
                    }
                    if t0.contains(x) {
                        let k = choose|k: int| 0 <= k < t0.len() && t0[k] == x;
                        assert(t1[k] == x);
                    }
                    if x == all[i as int] {
                        assert(t1[i as int] == x);
                    }
                }
            }
        }
        if !found {
            let ghost before = seen@.map_values(|s: String| s@);
            seen.push(v[i].clone());
            proof {
                let now = seen@.map_values(|s: String| s@);
                assert(now =~= before.push(all[i as int]));
                assert(!before.contains(all[i as int]));
                lemma_push_to_set(before, all[i as int]);
                assert forall|a: int, b: int| 0 <= a < b < now.len() implies now[a] != now[b] by {
                    if b == now.len() - 1 {
                        assert(before.contains(now[a]));
                    }
                }
            }
        } else {
            proof {
                assert(sv.to_set().contains(all[i as int]));
                assert(sv.to_set().insert(all[i as int]) =~= sv.to_set());
            }
        }
        i = i + 1;
    }
    proof {
        assert(all.take(v@.len() as int) =~= all);
        seen@.map_values(|s: String| s@).unique_seq_to_set();
    }
    seen.len()
}

/// The search a path enumeration makes: from `e`, to the exit `x` if one
/// is given, within the depth and path limits, passing through any symbol
/// at most 100 times.
pub open spec fn search_of(g: &CodeGraph, e: i64, x: Option<i64>, max_depth: usize, max_paths: usize) -> SearchView {
    dfs_spec(&g.graph, max_depth, max_paths, 100, match x { Some(t) => Some(set![t]), None => None }, e, seq![],
        SearchView { paths: seq![], total: 0, pruned: 0 })
}

/// Paths that start at `e`, follow at most `max_depth` calls, and, where
/// exits are given, end at one.
pub open spec fn paths_ok(ps: Seq<Seq<i64>>, e: i64, max_depth: usize, exits: Option<Set<i64>>) -> bool {
    forall|i: int| 0 <= i < ps.len() ==> {
        &&& (#[trigger] ps[i]).len() >= 1
        &&& ps[i][0] == e
        &&& ps[i].len() <= max_depth + 1
        &&& (exits matches Some(xs) ==> xs.contains(ps[i].last()))
    }
}

proof fn lemma_record_ok(acc: SearchView, p: Seq<i64>, max_paths: usize, e: i64, max_depth: usize, exits: Option<Set<i64>>)
    requires
        paths_ok(acc.paths, e, max_depth, exits),
        p.len() >= 1,
        p[0] == e,
        p.len() <= max_depth + 1,
        exits matches Some(xs) ==> xs.contains(p.last()),
    ensures
        paths_ok(record_path(acc, p, max_paths).paths, e, max_depth, exits),
{
    let r = record_path(acc, p, max_paths).paths;
    if acc.paths.len() < max_paths {
        assert forall|i: int| 0 <= i < r.len() implies {
            &&& (#[trigger] r[i]).len() >= 1
            &&& r[i][0] == e
            &&& r[i].len() <= max_depth + 1
            &&& (exits matches Some(xs) ==> xs.contains(r[i].last()))
        } by {
            if i < acc.paths.len() {
                assert(r[i] == acc.paths[i]);
            }
        }
    }
}

/// Every path the search records starts at the entry, follows at most
/// `max_depth` calls, and, where exits are given, ends at one.
pub proof fn lemma_dfs_paths_ok(
    g: &CallGraph,
    max_depth: usize,
    max_paths: usize,
    cap: usize,
    exits: Option<Set<i64>>,
    node: i64,
    path: Seq<i64>,
    acc: SearchView,
    e: i64,
)
    requires
        paths_ok(acc.paths, e, max_depth, exits),
        path.len() == 0 ==> node == e,
        path.len() > 0 ==> path[0] == e,
    ensures
        paths_ok(dfs_spec(g, max_depth, max_paths, cap, exits, node, path, acc).paths, e, max_depth, exits),
    decreases depth_left(max_depth, path), 0nat, 0nat,
{
    if count_in(path, node) + 1 <= cap {
        let p = path.push(node);
        assert(p[0] == e);
        if p.len() > max_depth + 1 {
        } else if is_exit(exits, node) && p.len() > 1 {
            lemma_record_ok(acc, p, max_paths, e, max_depth, exits);
        } else {
            let ns = g.next(true, node);
            lemma_dfs_list_ok(g, max_depth, max_paths, cap, exits, ns, 0, p, acc, e);
            let after = dfs_list(g, max_depth, max_paths, cap, exits, ns, 0, p, acc);
            if ns.len() == 0 && exits is None && p.len() > 1 {
                lemma_record_ok(after, p, max_paths, e, max_depth, exits);
            }
        }
    }
}

proof fn lemma_dfs_list_ok(
    g: &CallGraph,
    max_depth: usize,
    max_paths: usize,
    cap: usize,
    exits: Option<Set<i64>>,
    ns: Seq<i64>,
    i: int,
    p: Seq<i64>,
    acc: SearchView,
    e: i64,
)
    requires
        paths_ok(acc.paths, e, max_depth, exits),
        p.len() > 0,
        p[0] == e,
    ensures
        paths_ok(dfs_list(g, max_depth, max_paths, cap, exits, ns, i, p, acc).paths, e, max_depth, exits),
    decreases depth_left(max_depth, p), 1nat, (if i <= ns.len() { (ns.len() - i) as nat } else { 0nat }),
{
    if !(i < 0 || i >= ns.len() || p.len() > max_depth + 1 || p.len() == 0) {
        lemma_dfs_paths_ok(g, max_depth, max_paths, cap, exits, ns[i], p, acc, e);
        lemma_dfs_list_ok(g, max_depth, max_paths, cap, exits, ns, i + 1, p,
            dfs_spec(g, max_depth, max_paths, cap, exits, ns[i], p, acc), e);
    }
}

/// Every path an enumeration from `e` finds starts at `e`, follows at most
/// `max_depth` calls, and, where the exit `x` is given, ends at `x`.
pub proof fn lemma_search_paths_ok(g: &CodeGraph, e: i64, x: Option<i64>, max_depth: usize, max_paths: usize)
    ensures
        paths_ok(search_of(g, e, x, max_depth, max_paths).paths, e, max_depth,
            match x { Some(t) => Some(set![t]), None => None }),
{
    lemma_dfs_paths_ok(&g.graph, max_depth, max_paths, 100, match x { Some(t) => Some(set![t]), None => None }, e, seq![],
        SearchView { paths: seq![], total: 0, pruned: 0 }, e);
}

impl CodeGraph {
    /// The call paths from the symbol named `start_symbol_id` (to the one
    /// named `end_symbol_id` if given, else to symbols that call nothing),
    /// at most `max_paths` of them, none of more than `max_depth` calls, no
    /// symbol passed more than 100 times on one path; each as its symbols,
    /// sorted by the name of the first (named first), then by length; with
    /// the number found, whether a bound cut any off (the depth limit, or
    /// the limit on paths kept), the shortest and longest length, and the
    /// number of different stable ids.
    pub fn enumerate_paths(&self, start_symbol_id: &str, end_symbol_id: Option<&str>, max_depth: usize, max_paths: usize)
        -> (r: Result<PathEnumeration, GraphQueryError>)
        requires
            self.wf(),
        ensures
            r is Ok <==> (self.resolvable(start_symbol_id@) && (end_symbol_id matches Some(q) ==> self.resolvable(q@))),
            !self.resolvable(start_symbol_id@) ==> (r matches Err(GraphQueryError::SymbolNotFound(s)) && s@ == start_symbol_id@),
            (self.resolvable(start_symbol_id@) && (end_symbol_id matches Some(q) && !self.resolvable(q@)))
                ==> (r matches Err(GraphQueryError::SymbolNotFound(s)) && s@ == end_symbol_id->0@),
            r is Ok ==> exists|e: i64, x: Option<i64>| #![trigger self.resolves(start_symbol_id@, e), search_of(self, e, x, max_depth, max_paths)]
                self.resolves(start_symbol_id@, e)
                && (match end_symbol_id { Some(q) => x matches Some(t) && self.resolves(q@, t), None => x is None })
                && enumeration_ok(self, search_of(self, e, x, max_depth, max_paths), r->Ok_0),
    {
        let e = self.resolve_symbol_entity(start_symbol_id)?;
        let x: Option<i64> = match end_symbol_id {
            Some(q) => Some(self.resolve_symbol_entity(q)?),
            None => None,
        };
        let exit_nodes = match x {
            Some(t) => {
                let mut exits: AHashSet<i64> = id_set_new();
                id_set_insert(&mut exits, t);
                Some(exits)
            },
            None => None,
        };
        let config = PathEnumerationConfig { max_depth, max_paths, revisit_cap: 100, exit_nodes };
        proof {
            assert(exits_view(config) == match x { Some(t) => Some(set![t]), None => None::<Set<i64>> });
        }
        let found = enumerate_entity_paths(&self.graph, e, &config);
        let ghost fv = found.view_of();
        assert(fv == search_of(self, e, x, max_depth, max_paths));
        let mut paths: Vec<ExecutionPath> = Vec::new();
        let mut sids: Vec<String> = Vec::new();
        let mut min_cur: usize = usize::MAX;
        let mut max_cur: usize = 0;
        let mut k: usize = 0;
        assert(epath_views(paths@) =~= path_candidates(self, fv.paths.take(0)));
        assert(sids@.map_values(|s: String| s@) =~= all_sids(path_candidates(self, fv.paths.take(0))));
        while k < found.paths.len()
            invariant
                self.wf(),
                fv == found.view_of(),
                k <= found.paths@.len(),
                epath_views(paths@) == path_candidates(self, fv.paths.take(k as int)),
                forall|i: int| 0 <= i < paths@.len() ==> (#[trigger] paths@[i]).length == paths@[i].symbols@.len(),
                sids@.map_values(|s: String| s@) == all_sids(path_candidates(self, fv.paths.take(k as int))),
                paths@.len() == 0 ==> min_cur == usize::MAX,
                paths@.len() > 0 ==> min_cur == min_len(path_candidates(self, fv.paths.take(k as int))),
                max_cur == max_len(path_candidates(self, fv.paths.take(k as int))),
            decreases found.paths@.len() - k,
        {
            let ghost cands0 = path_candidates(self, fv.paths.take(k as int));
            let syms = self.member_infos(&found.paths[k]);
            proof {
                assert(fv.paths[k as int] == found.paths@[k as int]@);
                assert(fv.paths.take(k + 1).drop_last() =~= fv.paths.take(k as int));
                assert(fv.paths.take(k + 1).last() == fv.paths[k as int]);
            }
            let len = syms.len();
            if len > 0 {
                let mut j: usize = 0;
                let ghost sid0 = sids@.map_values(|s: String| s@);
                let ghost mv = views(syms@);
                while j < syms.len()
                    invariant
                        j <= syms@.len(),
                        mv == views(syms@),
                        sids@.map_values(|s: String| s@) == sid0 + mv.take(j as int).map_values(|s: SymbolView| sid_or_empty(s)),
                    decreases syms@.len() - j,
                {
                    let sid = match &syms[j].symbol_id {
                        Some(t) => t.clone(),
                        None => String::new(),
                    };
                    let ghost b = sids@;
                    sids.push(sid);
                    proof {
                        assert(mv[j as int] == syms@[j as int]@);
                        assert(sids@.map_values(|s: String| s@) =~= b.map_values(|s: String| s@).push(sid_or_empty(mv[j as int])));
                        assert(mv.take(j + 1).map_values(|s: SymbolView| sid_or_empty(s))
                            =~= mv.take(j as int).map_values(|s: SymbolView| sid_or_empty(s)).push(sid_or_empty(mv[j as int])));
                    }
                    j = j + 1;
                }
                assert(mv.take(syms@.len() as int) =~= mv);
                if paths.len() == 0 || len < min_cur {
                    min_cur = len;
                }
                if len > max_cur {
                    max_cur = len;
                }
                let ghost before = epath_views(paths@);
                let ghost oldp = paths@;
                paths.push(ExecutionPath { symbols: syms, length: len });
                proof {
                    assert(epath_views(paths@) =~= before.push(mv));
                    assert forall|i: int| 0 <= i < paths@.len() implies (#[trigger] paths@[i]).length == paths@[i].symbols@.len() by {
                        if i < oldp.len() {
                            assert(paths@[i] == oldp[i]);
                        }
                    }
                    let cands1 = path_candidates(self, fv.paths.take(k + 1));
                    assert(cands1 == cands0.push(mv));
                    assert(cands1.drop_last() =~= cands0);
                    assert(all_sids(cands1) == all_sids(cands0) + mv.map_values(|s: SymbolView| sid_or_empty(s)));
                }
            }
            k = k + 1;
        }
        assert(fv.paths.take(found.paths@.len() as int) =~= fv.paths);
        let ghost cands = path_candidates(self, fv.paths);
        let min_length = if paths.len() == 0 { 0 } else { min_cur };
        proof {
            if paths@.len() == 0 {
                assert(cands.len() == 0);
            }
        }
        let unique_symbols = distinct_count(&sids);
        let sorted = sort_paths(paths);
        Ok(PathEnumeration {
            paths: sorted,
            total_enumerated: found.total_found,
            bounded_hit: found.pruned_by_bounds > 0 || found.total_found > found.paths.len(),
            min_length,
            max_length: max_cur,
            unique_symbols,
        })
    }
}

} // verus!
