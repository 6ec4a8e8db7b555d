//! Queries over the indexed call graph: what a symbol reaches and what
//! reaches it, symbols unreachable from an entry point, cycles, the graph of
//! components, and slices. The graph and the symbol records are plain values
//! loaded from the store.

use vstd::prelude::*;
use std::collections::HashMap;
use vstd::hash_map::StringHashMap;
use vstd::multiset::Multiset;
use crate::call_graph::{CallGraph, reachable_from, reachable_within, node_index, node_pos, calls_itself};
use crate::scc::{SccResult, SccCollapse, strongly_connected_components, collapse_sccs, components_ok, scc_ordered, components_connected, members_of, strictly_sorted};
use crate::order::{
    seq_lt, opt_seq_lt, opt_chars, str_lt, opt_str_lt, lemma_seq_lt_transitive,
    lemma_opt_seq_lt_transitive, lemma_seq_lt_irreflexive, lemma_opt_seq_lt_irreflexive,
    stable_sorted, lemma_insert_pos, lemma_stable_sorted_step, lemma_seq_lt_total, lemma_opt_seq_lt_total,
};
use crate::text::str_eq;
use ahash::AHashSet;
use crate::id_tables::{pos_map_get, id_set_contents, id_set_new, id_set_insert, id_set_contains};

verus! {

broadcast use vstd::std_specs::hash::group_hash_axioms;

/// What identifies and locates a symbol in query results.
#[derive(Debug, Clone, PartialEq, Eq)]
pub struct SymbolInfo {
    /// Stable symbol id.
    pub symbol_id: Option<String>,
    /// Fully qualified name.
    pub fqn: Option<String>,
    /// File that holds the symbol.
    pub file_path: String,
    /// Symbol kind.
    pub kind: String,
}

/// A `SymbolInfo` as characters.
pub struct SymbolView {
    pub symbol_id: Option<Seq<char>>,
    pub fqn: Option<Seq<char>>,
    pub file_path: Seq<char>,
    pub kind: Seq<char>,
}

impl View for SymbolInfo {
    type V = SymbolView;

    open spec fn view(&self) -> SymbolView {
        SymbolView {
            symbol_id: opt_chars(self.symbol_id),
            fqn: opt_chars(self.fqn),
            file_path: self.file_path@,
            kind: self.kind@,
        }
    }
}

/// The views of a sequence of symbols.
pub open spec fn views(s: Seq<SymbolInfo>) -> Seq<SymbolView> {
    s.map_values(|x: SymbolInfo| x@)
}

/// The order of results: by file, then name (no name first), then kind,
/// then stable id (none first).
pub open spec fn sym_lt(a: SymbolView, b: SymbolView) -> bool {
    ||| seq_lt(a.file_path, b.file_path)
    ||| (a.file_path == b.file_path && opt_seq_lt(a.fqn, b.fqn))
    ||| (a.file_path == b.file_path && a.fqn == b.fqn && seq_lt(a.kind, b.kind))
    ||| (a.file_path == b.file_path && a.fqn == b.fqn && a.kind == b.kind && opt_seq_lt(a.symbol_id, b.symbol_id))
}

/// `sym_lt` as a value.
pub open spec fn sym_order() -> spec_fn(SymbolView, SymbolView) -> bool {
    |a: SymbolView, b: SymbolView| sym_lt(a, b)
}

/// Sorted by `sym_lt`: no symbol comes before one that precedes it.
pub open spec fn sorted_syms(s: Seq<SymbolView>) -> bool {
    forall|i: int, j: int| 0 <= i < j < s.len() ==> !sym_lt(#[trigger] s[j], #[trigger] s[i])
}

/// The order of results is transitive.
pub proof fn lemma_sym_lt_transitive(a: SymbolView, b: SymbolView, c: SymbolView)
    requires
        sym_lt(a, b),
        sym_lt(b, c),
    ensures
        sym_lt(a, c),
{
    if seq_lt(a.file_path, b.file_path) && seq_lt(b.file_path, c.file_path) {
        lemma_seq_lt_transitive(a.file_path, b.file_path, c.file_path);
    }
    if a.file_path == b.file_path && b.file_path == c.file_path {
        if opt_seq_lt(a.fqn, b.fqn) && opt_seq_lt(b.fqn, c.fqn) {
            lemma_opt_seq_lt_transitive(a.fqn, b.fqn, c.fqn);
        }
        if a.fqn == b.fqn && b.fqn == c.fqn && seq_lt(a.kind, b.kind) && seq_lt(b.kind, c.kind) {
            lemma_seq_lt_transitive(a.kind, b.kind, c.kind);
        }
        if a.fqn == b.fqn && b.fqn == c.fqn && a.kind == b.kind && b.kind == c.kind
            && opt_seq_lt(a.symbol_id, b.symbol_id) && opt_seq_lt(b.symbol_id, c.symbol_id) {
            lemma_opt_seq_lt_transitive(a.symbol_id, b.symbol_id, c.symbol_id);
        }
    }
}

/// Of two different symbols one comes before the other.
pub proof fn lemma_sym_lt_total(a: SymbolView, b: SymbolView)
    requires
        a != b,
    ensures
        sym_lt(a, b) || sym_lt(b, a),
{
    if a.file_path != b.file_path {
        lemma_seq_lt_total(a.file_path, b.file_path);
    } else if a.fqn != b.fqn {
        lemma_opt_seq_lt_total(a.fqn, b.fqn);
    } else if a.kind != b.kind {
        lemma_seq_lt_total(a.kind, b.kind);
    } else {
        lemma_opt_seq_lt_total(a.symbol_id, b.symbol_id);
    }
}

/// No symbol precedes itself.
pub proof fn lemma_sym_lt_irreflexive(a: SymbolView)
    ensures
        !sym_lt(a, a),
{
    lemma_seq_lt_irreflexive(a.file_path);
    lemma_opt_seq_lt_irreflexive(a.fqn);
    lemma_seq_lt_irreflexive(a.kind);
    lemma_opt_seq_lt_irreflexive(a.symbol_id);
}

/// Whether two optional strings are equal.
fn opt_str_eq(a: &Option<String>, b: &Option<String>) -> (r: bool)
    ensures
        r == (opt_chars(*a) == opt_chars(*b)),
{
    match (a, b) {
        (None, None) => true,
        (Some(x), Some(y)) => str_eq(x.as_str(), y.as_str()),
        _ => false,
    }
}

/// Whether `a` precedes `b` in the order of results.
fn symbol_lt(a: &SymbolInfo, b: &SymbolInfo) -> (r: bool)
    ensures
        r == sym_lt(a@, b@),
{
    if str_lt(a.file_path.as_str(), b.file_path.as_str()) {
        return true;
    }
    if !str_eq(a.file_path.as_str(), b.file_path.as_str()) {
        return false;
    }
    if opt_str_lt(&a.fqn, &b.fqn) {
        return true;
    }
    if !opt_str_eq(&a.fqn, &b.fqn) {
        return false;
    }
    if str_lt(a.kind.as_str(), b.kind.as_str()) {
        return true;
    }
    str_eq(a.kind.as_str(), b.kind.as_str()) && opt_str_lt(&a.symbol_id, &b.symbol_id)
}

/// An optional string, copied.
fn copy_opt(o: &Option<String>) -> (r: Option<String>)
    ensures
        opt_chars(r) == opt_chars(*o),
{
    match o {
        Some(s) => Some(s.clone()),
        None => None,
    }
}

/// A symbol, copied.
fn copy_info(s: &SymbolInfo) -> (r: SymbolInfo)
    ensures
        r@ == s@,
{
    SymbolInfo {
        symbol_id: copy_opt(&s.symbol_id),
        fqn: copy_opt(&s.fqn),
        file_path: s.file_path.clone(),
        kind: s.kind.clone(),
    }
}

/// Inserting an element anywhere adds it to the multiset of elements.
proof fn lemma_insert_to_multiset<A>(s: Seq<A>, i: int, x: A)
    requires
        0 <= i <= s.len(),
    ensures
        s.insert(i, x).to_multiset() == s.to_multiset().insert(x),
{
    broadcast use vstd::seq_lib::group_to_multiset_ensures;
    let t = s.insert(i, x);
    assert(t.remove(i) =~= s);
    assert(t[i] == x);
    assert(t.contains(x));
    assert(t.to_multiset().count(x) > 0);
    assert(t.to_multiset() =~= t.to_multiset().remove(x).insert(x));
}

/// Sorts the symbols into the order of results, keeping symbols that
/// compare equal in the order they came (a stable insertion sort).
pub fn sort_symbols(v: Vec<SymbolInfo>) -> (r: Vec<SymbolInfo>)
    ensures
        sorted_syms(views(r@)),
        views(r@).to_multiset() == views(v@).to_multiset(),
        views(r@) == stable_sorted(views(v@), sym_order()),
{
    broadcast use vstd::seq_lib::group_to_multiset_ensures;
    let mut out: Vec<SymbolInfo> = Vec::new();
    let mut k: usize = 0;
    assert(views(v@).take(0) =~= Seq::<SymbolView>::empty());
    assert(views(out@) =~= Seq::<SymbolView>::empty());
    while k < v.len()
        invariant
            k <= v@.len(),
            sorted_syms(views(out@)),
            views(out@).to_multiset() == views(v@).take(k as int).to_multiset(),
            views(out@) == stable_sorted(views(v@).take(k as int), sym_order()),
        decreases v@.len() - k,
    {
        let x = &v[k];
        let mut i: usize = 0;
        while i < out.len() && !symbol_lt(x, &out[i])
            invariant
                i <= out@.len(),
                forall|a: int| 0 <= a < i ==> !sym_lt(x@, #[trigger] views(out@)[a]),
            decreases out@.len() - i,
        {
            i = i + 1;
        }
        let ghost before = views(out@);
        out.insert(i, copy_info(x));
        proof {
            let now = views(out@);
            assert(now =~= before.insert(i as int, x@));
            lemma_insert_to_multiset(before, i as int, x@);
            assert(views(v@)[k as int] == x@);
            lemma_insert_pos(before, x@, sym_order(), i as int);
            lemma_stable_sorted_step(views(v@), k as int, sym_order());
            assert(views(v@).take(k + 1) =~= views(v@).take(k as int).push(x@));
            vstd::seq_lib::to_multiset_build(views(v@).take(k as int), x@);
            assert(now.to_multiset() == views(v@).take(k + 1).to_multiset());
            assert forall|a: int, b: int| 0 <= a < b < now.len() implies !sym_lt(#[trigger] now[b], #[trigger] now[a]) by {
                if b < i {
                    assert(now[a] == before[a] && now[b] == before[b]);
                } else if b == i {
                    assert(now[a] == before[a]);
                } else if a < i {
                    assert(now[a] == before[a] && now[b] == before[b - 1]);
                } else if a == i {
                    assert(now[b] == before[b - 1]);
                    assert(sym_lt(x@, before[i as int]));
                    if sym_lt(before[b - 1], x@) {
                        lemma_sym_lt_transitive(before[b - 1], x@, before[i as int]);
                        if b - 1 == i {
                            lemma_sym_lt_irreflexive(before[i as int]);
                        }
                    }
                } else {
                    assert(now[a] == before[a - 1] && now[b] == before[b - 1]);
                }
            }
        }
        k = k + 1;
    }
    assert(views(v@).take(v@.len() as int) =~= views(v@));
    out
}

/// A symbol entity of the store, with the names it can be looked up by.
#[derive(Debug, Clone)]
pub struct SymbolRecord {
    /// Entity id in the store.
    pub entity_id: i64,
    /// Stable symbol id.
    pub symbol_id: Option<String>,
    /// Fully qualified name.
    pub fqn: Option<String>,
    /// Name for display.
    pub display_fqn: Option<String>,
    /// Canonical name.
    pub canonical_fqn: Option<String>,
    /// File that holds the symbol, where the store records one.
    pub file_path: Option<String>,
    /// Symbol kind.
    pub kind: String,
}

/// What a query reports of a record: its name is the fully qualified name
/// or else the display name, and a file the store does not know is `?`.
pub open spec fn record_view(r: SymbolRecord) -> SymbolView {
    SymbolView {
        symbol_id: opt_chars(r.symbol_id),
        fqn: if r.fqn is Some { opt_chars(r.fqn) } else { opt_chars(r.display_fqn) },
        file_path: match r.file_path {
            Some(p) => p@,
            None => seq!['?'],
        },
        kind: r.kind@,
    }
}

/// Whether the record's stable id is `q`.
pub open spec fn id_matches(r: SymbolRecord, q: Seq<char>) -> bool {
    opt_chars(r.symbol_id) == Some(q)
}

/// Whether one of the record's names is `q`.
pub open spec fn name_matches(r: SymbolRecord, q: Seq<char>) -> bool {
    ||| opt_chars(r.fqn) == Some(q)
    ||| opt_chars(r.display_fqn) == Some(q)
    ||| opt_chars(r.canonical_fqn) == Some(q)
}

/// The indexed graph as plain values: every entity with the entities its
/// edges lead to and come from, the symbol entities, and the entities that
/// take part in calls.
#[derive(Debug)]
pub struct CodeGraph {
    /// Entities and edges.
    pub graph: CallGraph,
    /// The symbol entities.
    pub symbols: Vec<SymbolRecord>,
    /// The entities that call or are called, each once.
    pub call_entities: Vec<i64>,
    /// Each indexed file's path with its id.
    pub file_index: Vec<(String, i64)>,
    /// The stored AST nodes.
    pub ast_nodes: Vec<crate::ast_ops::AstRow>,
}

/// Why a query found nothing to answer.
#[derive(Debug, Clone, PartialEq, Eq)]
pub enum GraphQueryError {
    /// No symbol has this stable id or name.
    SymbolNotFound(String),
    /// The entity is not a symbol.
    NotASymbol(i64),
}

impl CodeGraph {
    /// Well-formed: the graph is, and no entity is listed twice.
    pub open spec fn wf(&self) -> bool {
        &&& self.graph.wf()
        &&& forall|i: int, j: int| 0 <= i < j < self.symbols@.len()
            ==> (#[trigger] self.symbols@[i]).entity_id != (#[trigger] self.symbols@[j]).entity_id
        &&& self.call_entities@.no_duplicates()
    }

    /// Whether the index is well formed (see `wf`).
    pub fn is_well_formed(&self) -> (r: bool)
        ensures
            r == self.wf(),
    {
        if !self.graph.is_well_formed() || !crate::call_graph::ids_distinct(&self.call_entities) {
            return false;
        }
        let mut ids: Vec<i64> = Vec::new();
        let mut i: usize = 0;
        while i < self.symbols.len()
            invariant
                i <= self.symbols@.len(),
                ids@.len() == i,
                forall|k: int| 0 <= k < i ==> ids@[k] == (#[trigger] self.symbols@[k]).entity_id,
            decreases self.symbols@.len() - i,
        {
            ids.push(self.symbols[i].entity_id);
            i = i + 1;
        }
        let ok = crate::call_graph::ids_distinct(&ids);
        proof {
            if ok {
                assert forall|a: int, b: int| 0 <= a < b < self.symbols@.len()
                    implies (#[trigger] self.symbols@[a]).entity_id != (#[trigger] self.symbols@[b]).entity_id by {
                    assert(ids@[a] != ids@[b]);
                }
            } else {
                let (a, b) = choose|a: int, b: int| 0 <= a < b < ids@.len() && ids@[a] == ids@[b];
                assert(self.symbols@[a].entity_id == self.symbols@[b].entity_id);
            }
        }
        ok
    }

    /// Whether entity `id` is a symbol.
    pub open spec fn has_record(&self, id: i64) -> bool {
        exists|i: int| 0 <= i < self.symbols@.len() && (#[trigger] self.symbols@[i]).entity_id == id
    }

    /// The record of symbol entity `id`.
    pub open spec fn record(&self, id: i64) -> SymbolRecord {
        self.symbols@[choose|i: int| 0 <= i < self.symbols@.len() && (#[trigger] self.symbols@[i]).entity_id == id]
    }

    /// What a query reports of symbol entity `id`.
    pub open spec fn info_of(&self, id: i64) -> SymbolView {
        record_view(self.record(id))
    }

    /// Whether some record has stable id `q`.
    pub open spec fn id_known(&self, q: Seq<char>) -> bool {
        exists|i: int| 0 <= i < self.symbols@.len() && id_matches(#[trigger] self.symbols@[i], q)
    }

    /// Whether record `i` answers a lookup of `q`: by stable id where some
    /// record has it, by name otherwise.
    pub open spec fn lookup_match(&self, q: Seq<char>, i: int) -> bool {
        if self.id_known(q) { id_matches(self.symbols@[i], q) } else { name_matches(self.symbols@[i], q) }
    }

    /// Whether some record has stable id or name `q`.
    pub open spec fn resolvable(&self, q: Seq<char>) -> bool {
        exists|i: int| 0 <= i < self.symbols@.len() && (id_matches(#[trigger] self.symbols@[i], q) || name_matches(self.symbols@[i], q))
    }

    /// Whether a lookup of `q` gives entity `e`: the first record that
    /// answers it is `e`'s.
    pub open spec fn resolves(&self, q: Seq<char>, e: i64) -> bool {
        exists|i: int| #![trigger self.symbols@[i]]
            0 <= i < self.symbols@.len() && self.lookup_match(q, i) && self.symbols@[i].entity_id == e
            && forall|j: int| 0 <= j < i ==> !self.lookup_match(q, j)
    }
}

/// With entity ids distinct, the record of `id` is the one with that id.
proof fn lemma_record_at(g: &CodeGraph, id: i64, i: int)
    requires
        g.wf(),
        0 <= i < g.symbols@.len(),
        g.symbols@[i].entity_id == id,
    ensures
        g.has_record(id),
        g.record(id) == g.symbols@[i],
{
    assert(g.has_record(id));
    let k = choose|k: int| 0 <= k < g.symbols@.len() && (#[trigger] g.symbols@[k]).entity_id == id;
    if k != i {
        if k < i {
            assert(g.symbols@[k].entity_id != g.symbols@[i].entity_id);
        } else {
            assert(g.symbols@[i].entity_id != g.symbols@[k].entity_id);
        }
    }
}

/// The position of the record of entity `id`.
fn find_record(g: &CodeGraph, id: i64) -> (r: Option<usize>)
    requires
        g.wf(),
    ensures
        match r {
            Some(i) => i < g.symbols@.len() && g.symbols@[i as int].entity_id == id && g.has_record(id)
                && g.record(id) == g.symbols@[i as int],
            None => !g.has_record(id),
        },
{
    let mut i: usize = 0;
    while i < g.symbols.len()
        invariant
            g.wf(),
            i <= g.symbols@.len(),
            forall|k: int| 0 <= k < i ==> (#[trigger] g.symbols@[k]).entity_id != id,
        decreases g.symbols@.len() - i,
    {
        if g.symbols[i].entity_id == id {
            proof {
                lemma_record_at(g, id, i as int);
            }
            return Some(i);
        }
        i = i + 1;
    }
    None
}

/// What a query reports of a record.
fn info_from_record(r: &SymbolRecord) -> (s: SymbolInfo)
    ensures
        s@ == record_view(*r),
{
    let file_path = match &r.file_path {
        Some(p) => p.clone(),
        None => {
            let mut q = String::new();
            crate::text::push_char(&mut q, '?');
            q
        },
    };
    let fqn = if r.fqn.is_some() { copy_opt(&r.fqn) } else { copy_opt(&r.display_fqn) };
    let s = SymbolInfo { symbol_id: copy_opt(&r.symbol_id), fqn, file_path, kind: r.kind.clone() };
    proof {
        if r.file_path is None {
            assert(s.file_path@ =~= seq!['?']);
        }
    }
    s
}

/// Whether the optional string holds exactly `q`.
fn opt_is(o: &Option<String>, q: &str) -> (r: bool)
    ensures
        r == (opt_chars(*o) == Some(q@)),
{
    match o {
        Some(s) => str_eq(s.as_str(), q),
        None => false,
    }
}

/// `ids` lists, each once, exactly the ids that satisfy `pick`.
pub open spec fn enumerates(ids: Seq<i64>, pick: spec_fn(i64) -> bool) -> bool {
    &&& ids.no_duplicates()
    &&& forall|t: i64| ids.contains(t) <==> #[trigger] pick(t)
}

/// `out` holds what a query reports of each symbol entity that satisfies
/// `pick`, once per entity, sorted into the order of results.
pub open spec fn lists_sorted(g: &CodeGraph, pick: spec_fn(i64) -> bool, out: Seq<SymbolView>) -> bool {
    &&& sorted_syms(out)
    &&& exists|ids: Seq<i64>| #[trigger] enumerates(ids, pick)
        && out.to_multiset() == ids.map_values(|t: i64| g.info_of(t)).to_multiset()
}

/// The symbols other than `e` that `e` reaches (along calls when
/// `forward`, against them otherwise), within `d` calls where `depth` is
/// `Some(d)`.
pub open spec fn reach_pick(g: &CodeGraph, forward: bool, e: i64, depth: Option<usize>) -> spec_fn(i64) -> bool {
    |t: i64| g.graph.reaches_up_to(forward, e, t, depth) && t != e && g.has_record(t)
}

impl CodeGraph {
    /// The entity that a stable symbol id names, or else the one whose
    /// name (fully qualified, display or canonical) it is.
    pub fn resolve_symbol_entity(&self, symbol_id_or_fqn: &str) -> (r: Result<i64, GraphQueryError>)
        requires
            self.wf(),
        ensures
            r is Ok ==> self.resolves(symbol_id_or_fqn@, r->Ok_0),
            r is Err ==> !self.resolvable(symbol_id_or_fqn@)
                && (r->Err_0 matches GraphQueryError::SymbolNotFound(s) && s@ == symbol_id_or_fqn@),
    {
        let mut i: usize = 0;
        while i < self.symbols.len()
            invariant
                i <= self.symbols@.len(),
                forall|k: int| 0 <= k < i ==> !id_matches(#[trigger] self.symbols@[k], symbol_id_or_fqn@),
            decreases self.symbols@.len() - i,
        {
            if opt_is(&self.symbols[i].symbol_id, symbol_id_or_fqn) {
                proof {
                    assert(self.id_known(symbol_id_or_fqn@));
                    assert forall|j: int| 0 <= j < i implies !self.lookup_match(symbol_id_or_fqn@, j) by {
                        assert(!id_matches(self.symbols@[j], symbol_id_or_fqn@));
                    }
                    assert(self.lookup_match(symbol_id_or_fqn@, i as int));
                }
                let e = self.symbols[i].entity_id;
                assert(self.symbols@[i as int].entity_id == e);
                assert(self.resolves(symbol_id_or_fqn@, e));
                return Ok(e);
            }
            i = i + 1;
        }
        assert(!self.id_known(symbol_id_or_fqn@));
        let mut i: usize = 0;
        while i < self.symbols.len()
            invariant
                i <= self.symbols@.len(),
                !self.id_known(symbol_id_or_fqn@),
                forall|k: int| 0 <= k < i ==> !name_matches(#[trigger] self.symbols@[k], symbol_id_or_fqn@),
            decreases self.symbols@.len() - i,
        {
            let r = &self.symbols[i];
            if opt_is(&r.fqn, symbol_id_or_fqn) || opt_is(&r.display_fqn, symbol_id_or_fqn) || opt_is(&r.canonical_fqn, symbol_id_or_fqn) {
                proof {
                    assert forall|j: int| 0 <= j < i implies !self.lookup_match(symbol_id_or_fqn@, j) by {
                        assert(!name_matches(self.symbols@[j], symbol_id_or_fqn@));
                    }
                    assert(self.lookup_match(symbol_id_or_fqn@, i as int));
                }
                let e = r.entity_id;
                assert(self.symbols@[i as int].entity_id == e);
                assert(self.resolves(symbol_id_or_fqn@, e));
                return Ok(e);
            }
            i = i + 1;
        }
        proof {
            assert forall|k: int| 0 <= k < self.symbols@.len() implies !(id_matches(#[trigger] self.symbols@[k], symbol_id_or_fqn@)
                || name_matches(self.symbols@[k], symbol_id_or_fqn@)) by {
                if id_matches(self.symbols@[k], symbol_id_or_fqn@) {
                    assert(self.id_known(symbol_id_or_fqn@));
                }
            }
        }
        Err(GraphQueryError::SymbolNotFound(symbol_id_or_fqn.to_owned()))
    }

    /// What a query reports of symbol entity `entity_id`.
    pub fn symbol_by_entity_id(&self, entity_id: i64) -> (r: Result<SymbolInfo, GraphQueryError>)
        requires
            self.wf(),
        ensures
            match r {
                Ok(s) => self.has_record(entity_id) && s@ == self.info_of(entity_id),
                Err(err) => !self.has_record(entity_id) && err == GraphQueryError::NotASymbol(entity_id),
            },
    {
        match find_record(self, entity_id) {
            Some(i) => Ok(info_from_record(&self.symbols[i])),
            None => Err(GraphQueryError::NotASymbol(entity_id)),
        }
    }

    /// What a query reports of each listed id other than `skip` that is a
    /// symbol, in the order listed, with those ids.
    fn infos_of(&self, ids: &Vec<i64>, skip: i64) -> (r: (Vec<SymbolInfo>, Ghost<Seq<i64>>))
        requires
            self.wf(),
            ids@.no_duplicates(),
        ensures
            r.1@.no_duplicates(),
            forall|t: i64| #[trigger] r.1@.contains(t) <==> (ids@.contains(t) && t != skip && self.has_record(t)),
            views(r.0@) == r.1@.map_values(|t: i64| self.info_of(t)),
    {
        let mut out: Vec<SymbolInfo> = Vec::new();
        let ghost mut kept: Seq<i64> = Seq::empty();
        let mut k: usize = 0;
        proof {
            assert(views(out@) =~= kept.map_values(|t: i64| self.info_of(t)));
        }
        while k < ids.len()
            invariant
                self.wf(),
                ids@.no_duplicates(),
                k <= ids@.len(),
                kept.no_duplicates(),
                forall|t: i64| kept.contains(t) <==> (ids@.take(k as int).contains(t) && t != skip && self.has_record(t)),
                views(out@) == kept.map_values(|t: i64| self.info_of(t)),
            decreases ids@.len() - k,
        {
            let id = ids[k];
            proof {
                assert(ids@.take(k + 1) =~= ids@.take(k as int).push(id));
                assert(!ids@.take(k as int).contains(id)) by {
                    if ids@.take(k as int).contains(id) {
                        let a = choose|a: int| 0 <= a < k && ids@.take(k as int)[a] == id;
                        assert(ids@[a] == ids@[k as int]);
                    }
                }
            }
            if id != skip {
                if let Some(i) = find_record(self, id) {
                    let ghost old_kept = kept;
                    let ghost old_out = out@;
                    let info = info_from_record(&self.symbols[i]);
                    assert(info@ == self.info_of(id));
                    out.push(info);
                    proof {
                        kept = kept.push(id);
                        assert(views(out@) =~= views(old_out).push(info@));
                        assert(kept.map_values(|t: i64| self.info_of(t))
                            =~= old_kept.map_values(|t: i64| self.info_of(t)).push(self.info_of(id)));
                        assert(views(out@) =~= kept.map_values(|t: i64| self.info_of(t)));
                        let pre1 = ids@.take(k + 1);
                        let pre0 = ids@.take(k as int);
                        assert forall|t: i64| kept.contains(t) <==> (pre1.contains(t) && t != skip && self.has_record(t)) by {
                            if t == id {
                                assert(kept[kept.len() - 1] == id);
                                assert(pre1[k as int] == id);
                            } else {
                                if kept.contains(t) {
                                    let a = choose|a: int| 0 <= a < kept.len() && kept[a] == t;
                                    assert(old_kept[a] == t);
                                }
                                if old_kept.contains(t) {
                                    let a = choose|a: int| 0 <= a < old_kept.len() && old_kept[a] == t;
                                    assert(kept[a] == t);
                                }
                                if pre1.contains(t) {
                                    let a = choose|a: int| 0 <= a < pre1.len() && pre1[a] == t;
                                    assert(pre0[a] == t);
                                }
                                if pre0.contains(t) {
                                    let a = choose|a: int| 0 <= a < pre0.len() && pre0[a] == t;
                                    assert(pre1[a] == t);
                                }
                            }
                        }
                        assert forall|a: int, b: int| 0 <= a < b < kept.len() implies kept[a] != kept[b] by {
                            if b == kept.len() - 1 {
                                assert(old_kept.contains(kept[a]));
                            }
                        }
                    }
                }
            }
            k = k + 1;
        }
        assert(ids@.take(ids@.len() as int) =~= ids@);
        (out, Ghost(kept))
    }

    /// What a query reports of the symbols other than `e` that `e` reaches,
    /// sorted into the order of results.
    fn reach_infos(&self, e: i64, forward: bool, depth: Option<usize>) -> (r: Vec<SymbolInfo>)
        requires
            self.wf(),
        ensures
            lists_sorted(self, reach_pick(self, forward, e, depth), views(r@)),
    {
        let ids = match depth {
            Some(d) => reachable_within(&self.graph, e, forward, d),
            None => reachable_from(&self.graph, e, forward),
        };
        proof {
            assert forall|a: int, b: int| 0 <= a < b < ids@.len() implies ids@[a] != ids@[b] by {}
        }
        let res = self.infos_of(&ids, e);
        let ghost kept = res.1@;
        let infos = res.0;
        let sorted = sort_symbols(infos);
        proof {
            let pick = reach_pick(self, forward, e, depth);
            assert forall|t: i64| kept.contains(t) <==> #[trigger] pick(t) by {
                assert(pick(t) == (self.graph.reaches_up_to(forward, e, t, depth) && t != e && self.has_record(t)));
                assert(kept.contains(t) == (ids@.contains(t) && t != e && self.has_record(t)));
                assert(ids@.contains(t) == self.graph.reaches_up_to(forward, e, t, depth));
            }
            assert(enumerates(kept, pick));
        }
        sorted
    }
}

/// A name resolves to at most one entity.
pub proof fn lemma_resolves_unique(g: &CodeGraph, q: Seq<char>, e1: i64, e2: i64)
    requires
        g.resolves(q, e1),
        g.resolves(q, e2),
    ensures
        e1 == e2,
{
    let i1 = choose|i: int| #![trigger g.symbols@[i]]
        0 <= i < g.symbols@.len() && g.lookup_match(q, i) && g.symbols@[i].entity_id == e1
        && forall|j: int| 0 <= j < i ==> !g.lookup_match(q, j);
    let i2 = choose|i: int| #![trigger g.symbols@[i]]
        0 <= i < g.symbols@.len() && g.lookup_match(q, i) && g.symbols@[i].entity_id == e2
        && forall|j: int| 0 <= j < i ==> !g.lookup_match(q, j);
    if i1 < i2 {
        assert(!g.lookup_match(q, i1));
    } else if i2 < i1 {
        assert(!g.lookup_match(q, i2));
    }
}

/// Two sequences sorted into the order of results with the same elements
/// are the same sequence.
proof fn lemma_sorted_syms_unique(s: Seq<SymbolView>, t: Seq<SymbolView>)
    requires
        sorted_syms(s),
        sorted_syms(t),
        s.to_multiset() == t.to_multiset(),
    ensures
        s == t,
    decreases s.len(),
{
    broadcast use vstd::seq_lib::group_to_multiset_ensures;
    assert(s.len() == t.to_multiset().len());
    if s.len() > 0 {
        assert(t[0] == t[0]);
        vstd::seq_lib::to_multiset_contains(t, t[0]);
        vstd::seq_lib::to_multiset_contains(s, t[0]);
        vstd::seq_lib::to_multiset_contains(s, s[0]);
        vstd::seq_lib::to_multiset_contains(t, s[0]);
        assert(t.contains(t[0]) && s.contains(s[0]));
        assert(t.to_multiset().count(t[0]) > 0 && s.to_multiset().count(s[0]) > 0);
        assert(s.contains(t[0]));
        assert(t.contains(s[0]));
        let j = choose|j: int| 0 <= j < s.len() && s[j] == t[0];
        let k = choose|k: int| 0 <= k < t.len() && t[k] == s[0];
        if j > 0 {
            assert(!sym_lt(s[j], s[0]));
        }
        if k > 0 {
            assert(!sym_lt(t[k], t[0]));
        }
        if s[0] != t[0] {
            lemma_sym_lt_total(s[0], t[0]);
            lemma_sym_lt_irreflexive(s[0]);
        }
        let s2 = s.drop_first();
        let t2 = t.drop_first();
        assert(s.remove(0) =~= s2);
        assert(t.remove(0) =~= t2);
        vstd::seq_lib::to_multiset_remove(s, 0);
        vstd::seq_lib::to_multiset_remove(t, 0);
        assert forall|a: int, b: int| 0 <= a < b < s2.len() implies !sym_lt(#[trigger] s2[b], #[trigger] s2[a]) by {
            assert(s2[a] == s[a + 1] && s2[b] == s[b + 1]);
        }
        assert forall|a: int, b: int| 0 <= a < b < t2.len() implies !sym_lt(#[trigger] t2[b], #[trigger] t2[a]) by {
            assert(t2[a] == t[a + 1] && t2[b] == t[b + 1]);
        }
        lemma_sorted_syms_unique(s2, t2);
        assert(s =~= t) by {
            assert forall|i: int| 0 <= i < s.len() implies s[i] == t[i] by {
                if i > 0 {
                    assert(s[i] == s2[i - 1] && t[i] == t2[i - 1]);
                }
            }
        }
    }
}

/// Two id lists without repeats that hold the same ids hold them the same
/// number of times.
proof fn lemma_same_ids_same_multiset(a: Seq<i64>, b: Seq<i64>)
    requires
        a.no_duplicates(),
        b.no_duplicates(),
        forall|x: i64| a.contains(x) <==> b.contains(x),
    ensures
        a.to_multiset() == b.to_multiset(),
{
    broadcast use vstd::seq_lib::group_to_multiset_ensures;
    a.lemma_multiset_has_no_duplicates();
    b.lemma_multiset_has_no_duplicates();
    assert forall|x: i64| a.to_multiset().count(x) == b.to_multiset().count(x) by {
        if a.contains(x) {
            assert(a.to_multiset().contains(x) && b.to_multiset().contains(x));
        }
    }
    assert(a.to_multiset() =~= b.to_multiset());
}

/// Lists with the same elements, mapped alike, have the same elements.
proof fn lemma_map_same_multiset(a: Seq<i64>, b: Seq<i64>, f: spec_fn(i64) -> SymbolView)
    requires
        a.to_multiset() == b.to_multiset(),
    ensures
        a.map_values(f).to_multiset() == b.map_values(f).to_multiset(),
    decreases a.len(),
{
    broadcast use vstd::seq_lib::group_to_multiset_ensures;
    broadcast use vstd::multiset::group_multiset_axioms;
    if a.len() == 0 {
        assert(b.len() == b.to_multiset().len());
        assert(a.map_values(f) =~= Seq::<SymbolView>::empty());
        assert(b.map_values(f) =~= Seq::<SymbolView>::empty());
    } else {
        let x = a.last();
        let a2 = a.drop_last();
        assert(a2.push(x) =~= a);
        vstd::seq_lib::to_multiset_build(a2, x);
        assert(a.contains(x)) by {
            assert(a[a.len() - 1] == x);
        }
        vstd::seq_lib::to_multiset_contains(a, x);
        vstd::seq_lib::to_multiset_contains(b, x);
        assert(b.contains(x));
        let i = choose|i: int| 0 <= i < b.len() && b[i] == x;
        let b2 = b.remove(i);
        vstd::seq_lib::to_multiset_remove(b, i);
        assert(a2.to_multiset() =~= b2.to_multiset());
        lemma_map_same_multiset(a2, b2, f);
        let fa = a.map_values(f);
        let fb = b.map_values(f);
        assert(fa =~= a2.map_values(f).push(f(x)));
        vstd::seq_lib::to_multiset_build(a2.map_values(f), f(x));
        assert(fb.remove(i) =~= b2.map_values(f));
        vstd::seq_lib::to_multiset_remove(fb, i);
        assert(fb[i] == f(x));
        assert(fb.contains(f(x)));
        assert(fb.to_multiset().count(f(x)) > 0);
        assert(fb.to_multiset() =~= fb.to_multiset().remove(f(x)).insert(f(x)));
    }
}

/// A listing of the symbols that `pick` selects, sorted into the order of
/// results, is one list: two such listings are equal.
pub proof fn lemma_lists_sorted_unique(g: &CodeGraph, pick: spec_fn(i64) -> bool, out1: Seq<SymbolView>, out2: Seq<SymbolView>)
    requires
        lists_sorted(g, pick, out1),
        lists_sorted(g, pick, out2),
    ensures
        out1 == out2,
{
    let ids1 = choose|ids: Seq<i64>| #[trigger] enumerates(ids, pick)
        && out1.to_multiset() == ids.map_values(|t: i64| g.info_of(t)).to_multiset();
    let ids2 = choose|ids: Seq<i64>| #[trigger] enumerates(ids, pick)
        && out2.to_multiset() == ids.map_values(|t: i64| g.info_of(t)).to_multiset();
    assert forall|x: i64| ids1.contains(x) <==> ids2.contains(x) by {
        assert(ids1.contains(x) <==> pick(x));
        assert(ids2.contains(x) <==> pick(x));
    }
    lemma_same_ids_same_multiset(ids1, ids2);
    lemma_map_same_multiset(ids1, ids2, |t: i64| g.info_of(t));
    lemma_sorted_syms_unique(out1, out2);
}

/// A slice lists what the reachability query gives for the same symbol:
/// for a `symbol_id` naming `q`, the symbols of `forward_slice(symbol_id)`
/// are those of `reachable_symbols(symbol_id, None)`, and those of
/// `backward_slice(symbol_id)` those of
/// `reverse_reachable_symbols(symbol_id, None)`, in the same order. (Each
/// of the four states its result over some entity that `q` resolves to;
/// `e1` and `e2` are those entities, and the law needs nothing more of the
/// two results than what their contracts state.)
pub proof fn lemma_slice_is_reachability(g: &CodeGraph, q: Seq<char>, forward: bool, e1: i64, e2: i64,
    slice: SliceResult, reached: Seq<SymbolView>)
    requires
        g.resolves(q, e1),
        slice_ok(g, e1, forward, slice),
        g.resolves(q, e2),
        lists_sorted(g, reach_pick(g, forward, e2, None), reached),
    ensures
        views(slice.slice.included_symbols@) == reached,
{
    lemma_resolves_unique(g, q, e1, e2);
    lemma_lists_sorted_unique(g, reach_pick(g, forward, e1, None), views(slice.slice.included_symbols@), reached);
}

/// A symbol that the entry point does not reach, with why it is listed.
#[derive(Debug, Clone, PartialEq, Eq)]
pub struct DeadSymbol {
    /// The symbol.
    pub symbol: SymbolInfo,
    /// Why it is dead code.
    pub reason: String,
}

/// Which way a slice follows calls.
#[derive(Debug, Clone, Copy, PartialEq, Eq, Structural)]
pub enum SliceDirection {
    /// What affects the target: its callers, transitively.
    Backward,
    /// What the target affects: its callees, transitively.
    Forward,
}

/// The symbols in a slice of the call graph.
#[derive(Debug, Clone, PartialEq, Eq)]
pub struct ProgramSlice {
    /// The symbol sliced from.
    pub target: SymbolInfo,
    /// Which way the slice goes.
    pub direction: SliceDirection,
    /// The symbols in the slice, the target left out.
    pub included_symbols: Vec<SymbolInfo>,
    /// How many symbols are in the slice.
    pub symbol_count: usize,
}

/// Counts that describe a slice.
#[derive(Debug, Clone, PartialEq, Eq)]
pub struct SliceStatistics {
    /// Symbols in the slice.
    pub total_symbols: usize,
    /// Data dependencies (the call graph has none to offer).
    pub data_dependencies: usize,
    /// Dependencies through calls.
    pub control_dependencies: usize,
}

/// A slice with its counts.
#[derive(Debug, Clone, PartialEq, Eq)]
pub struct SliceResult {
    /// The slice.
    pub slice: ProgramSlice,
    /// Its counts.
    pub statistics: SliceStatistics,
}

/// The symbols in a list of dead ones.
pub open spec fn dead_views(s: Seq<DeadSymbol>) -> Seq<SymbolView> {
    s.map_values(|d: DeadSymbol| d.symbol@)
}

/// The reason given for each dead symbol.
pub open spec fn unreachable_reason() -> Seq<char> {
    seq!['u', 'n', 'r', 'e', 'a', 'c', 'h', 'a', 'b', 'l', 'e', ' ', 'f', 'r', 'o', 'm', ' ', 'e', 'n', 't', 'r', 'y',
        ' ', 'p', 'o', 'i', 'n', 't']
}

/// The symbols that take part in calls, other than `e`, that `e` does not
/// reach.
pub open spec fn dead_pick(g: &CodeGraph, e: i64) -> spec_fn(i64) -> bool {
    |t: i64| g.call_entities@.contains(t) && !g.graph.reaches(true, e, t) && t != e && g.has_record(t)
}

/// What a slice from `e` the way `forward` says holds: the target, the
/// direction, the symbols reached (sorted) and their number.
pub open spec fn slice_ok(g: &CodeGraph, e: i64, forward: bool, r: SliceResult) -> bool {
    &&& g.has_record(e)
    &&& r.slice.target@ == g.info_of(e)
    &&& r.slice.direction == (if forward { SliceDirection::Forward } else { SliceDirection::Backward })
    &&& lists_sorted(g, reach_pick(g, forward, e, None), views(r.slice.included_symbols@))
    &&& r.slice.symbol_count == r.slice.included_symbols@.len()
    &&& r.statistics.total_symbols == r.slice.symbol_count
    &&& r.statistics.data_dependencies == 0
    &&& r.statistics.control_dependencies == r.slice.symbol_count
}

impl CodeGraph {
    /// The symbols that the symbol named `symbol_id` calls, directly or
    /// not (within `d` calls where `max_depth` is `Some(d)`), itself left
    /// out, sorted by file, name, kind and stable id.
    pub fn reachable_symbols(&self, symbol_id: &str, max_depth: Option<usize>) -> (r: Result<Vec<SymbolInfo>, GraphQueryError>)
        requires
            self.wf(),
        ensures
            r is Ok <==> self.resolvable(symbol_id@),
            r is Ok ==> exists|e: i64| #[trigger] self.resolves(symbol_id@, e)
                && lists_sorted(self, reach_pick(self, true, e, max_depth), views(r->Ok_0@)),
            r is Err ==> (r->Err_0 matches GraphQueryError::SymbolNotFound(s) && s@ == symbol_id@),
    {
        let e = self.resolve_symbol_entity(symbol_id)?;
        Ok(self.reach_infos(e, true, max_depth))
    }

    /// The symbols that call the symbol named `symbol_id`, directly or
    /// not (within `d` calls where `max_depth` is `Some(d)`), itself left
    /// out, sorted by file, name, kind and stable id.
    pub fn reverse_reachable_symbols(&self, symbol_id: &str, max_depth: Option<usize>) -> (r: Result<Vec<SymbolInfo>, GraphQueryError>)
        requires
            self.wf(),
        ensures
            r is Ok <==> self.resolvable(symbol_id@),
            r is Ok ==> exists|e: i64| #[trigger] self.resolves(symbol_id@, e)
                && lists_sorted(self, reach_pick(self, false, e, max_depth), views(r->Ok_0@)),
            r is Err ==> (r->Err_0 matches GraphQueryError::SymbolNotFound(s) && s@ == symbol_id@),
    {
        let e = self.resolve_symbol_entity(symbol_id)?;
        Ok(self.reach_infos(e, false, max_depth))
    }

    /// The symbols that take part in calls and that the entry point does
    /// not reach, sorted by file, name, kind and stable id, each with the reason
    /// "unreachable from entry point".
    pub fn dead_symbols(&self, entry_symbol_id: &str) -> (r: Result<Vec<DeadSymbol>, GraphQueryError>)
        requires
            self.wf(),
        ensures
            r is Ok <==> self.resolvable(entry_symbol_id@),
            r is Ok ==> exists|e: i64| #[trigger] self.resolves(entry_symbol_id@, e)
                && lists_sorted(self, dead_pick(self, e), dead_views(r->Ok_0@)),
            r is Ok ==> forall|i: int| 0 <= i < r->Ok_0@.len() ==> (#[trigger] r->Ok_0@[i]).reason@ == unreachable_reason(),
            r is Err ==> (r->Err_0 matches GraphQueryError::SymbolNotFound(s) && s@ == entry_symbol_id@),
    {
        let e = self.resolve_symbol_entity(entry_symbol_id)?;
        let reached = reachable_from(&self.graph, e, true);
        let mut seen: AHashSet<i64> = id_set_new();
        let mut k: usize = 0;
        while k < reached.len()
            invariant
                k <= reached@.len(),
                forall|t: i64| #[trigger] id_set_contents(seen).contains(t) <==> reached@.take(k as int).contains(t),
            decreases reached@.len() - k,
        {
            let ghost pre0 = reached@.take(k as int);
            let ghost pre1 = reached@.take(k + 1);
            id_set_insert(&mut seen, reached[k]);
            proof {
                assert forall|t: i64| #[trigger] id_set_contents(seen).contains(t) <==> pre1.contains(t) by {
                    if pre1.contains(t) {
                        let a = choose|a: int| 0 <= a < pre1.len() && pre1[a] == t;
                        if a < k {
                            assert(pre0[a] == t);
                        }
                    }
                    if pre0.contains(t) {
                        let a = choose|a: int| 0 <= a < pre0.len() && pre0[a] == t;
                        assert(pre1[a] == t);
                    }
                    if t == reached@[k as int] {
                        assert(pre1[k as int] == t);
                    }
                }
            }
            k = k + 1;
        }
        assert(reached@.take(reached@.len() as int) =~= reached@);
        let mut cands: Vec<i64> = Vec::new();
        let mut k: usize = 0;
        while k < self.call_entities.len()
            invariant
                self.wf(),
                k <= self.call_entities@.len(),
                forall|t: i64| #[trigger] id_set_contents(seen).contains(t) <==> reached@.contains(t),
                cands@.no_duplicates(),
                forall|t: i64| #[trigger] cands@.contains(t) <==> (self.call_entities@.take(k as int).contains(t) && !reached@.contains(t)),
            decreases self.call_entities@.len() - k,
        {
            let t = self.call_entities[k];
            let ghost pre0 = self.call_entities@.take(k as int);
            let ghost pre1 = self.call_entities@.take(k + 1);
            let ghost before = cands@;
            proof {
                assert(!pre0.contains(t)) by {
                    if pre0.contains(t) {
                        let a = choose|a: int| 0 <= a < pre0.len() && pre0[a] == t;
                        assert(self.call_entities@[a] == self.call_entities@[k as int]);
                    }
                }
            }
            if !id_set_contains(&seen, t) {
                cands.push(t);
            }
            proof {
                assert forall|a: int, b: int| 0 <= a < b < cands@.len() implies cands@[a] != cands@[b] by {
                    if b == before.len() {
                        assert(before.contains(cands@[a]));
                    }
                }
                assert forall|x: i64| #[trigger] cands@.contains(x) <==> (pre1.contains(x) && !reached@.contains(x)) by {
                    if cands@.contains(x) {
                        let a = choose|a: int| 0 <= a < cands@.len() && cands@[a] == x;
                        if a < before.len() {
                            assert(before.contains(x));
                            let b = choose|b: int| 0 <= b < pre0.len() && pre0[b] == x;
                            assert(pre1[b] == x);
                        } else {
                            assert(pre1[k as int] == x);
                        }
                    }
                    if pre1.contains(x) && !reached@.contains(x) {
                        let a = choose|a: int| 0 <= a < pre1.len() && pre1[a] == x;
                        if a < k {
                            assert(pre0[a] == x);
                            assert(before.contains(x));
                            let b = choose|b: int| 0 <= b < before.len() && before[b] == x;
                            assert(cands@[b] == x);
                        } else {
                            assert(cands@[cands@.len() - 1] == x);
                        }
                    }
                }
            }
            k = k + 1;
        }
        assert(self.call_entities@.take(self.call_entities@.len() as int) =~= self.call_entities@);
        let res = self.infos_of(&cands, e);
        let ghost kept = res.1@;
        let sorted = sort_symbols(res.0);
        let mut out: Vec<DeadSymbol> = Vec::new();
        let mut i: usize = 0;
        while i < sorted.len()
            invariant
                i <= sorted@.len(),
                out@.len() == i,
                forall|a: int| 0 <= a < i ==> (#[trigger] out@[a]).symbol@ == sorted@[a]@ && out@[a].reason@ == unreachable_reason(),
            decreases sorted@.len() - i,
        {
            let reason = "unreachable from entry point".to_owned();
            proof {
                reveal_strlit("unreachable from entry point");
                assert(reason@ =~= unreachable_reason());
            }
            out.push(DeadSymbol { symbol: copy_info(&sorted[i]), reason });
            i = i + 1;
        }
        proof {
            assert(dead_views(out@) =~= views(sorted@));
            let pick = dead_pick(self, e);
            assert forall|t: i64| kept.contains(t) <==> #[trigger] pick(t) by {
                assert(pick(t) == (self.call_entities@.contains(t) && !self.graph.reaches(true, e, t) && t != e && self.has_record(t)));
                assert(kept.contains(t) == (cands@.contains(t) && t != e && self.has_record(t)));
                assert(cands@.contains(t) == (self.call_entities@.contains(t) && !reached@.contains(t)));
                assert(reached@.contains(t) == self.graph.reaches(true, e, t));
            }
            assert(enumerates(kept, pick));
        }
        Ok(out)
    }

    /// The slice of what the target affects: the symbols it calls, directly
    /// or not, sorted by file, name, kind and stable id.
    pub fn forward_slice(&self, symbol_id: &str) -> (r: Result<SliceResult, GraphQueryError>)
        requires
            self.wf(),
        ensures
            r is Ok <==> self.resolvable(symbol_id@),
            r is Ok ==> exists|e: i64| #[trigger] self.resolves(symbol_id@, e) && slice_ok(self, e, true, r->Ok_0),
            r is Err ==> (r->Err_0 matches GraphQueryError::SymbolNotFound(s) && s@ == symbol_id@),
    {
        let e = self.resolve_symbol_entity(symbol_id)?;
        self.slice_from(e, true)
    }

    /// The slice of what affects the target: the symbols that call it,
    /// directly or not, sorted by file, name, kind and stable id.
    pub fn backward_slice(&self, symbol_id: &str) -> (r: Result<SliceResult, GraphQueryError>)
        requires
            self.wf(),
        ensures
            r is Ok <==> self.resolvable(symbol_id@),
            r is Ok ==> exists|e: i64| #[trigger] self.resolves(symbol_id@, e) && slice_ok(self, e, false, r->Ok_0),
            r is Err ==> (r->Err_0 matches GraphQueryError::SymbolNotFound(s) && s@ == symbol_id@),
    {
        let e = self.resolve_symbol_entity(symbol_id)?;
        self.slice_from(e, false)
    }

    /// The slice from symbol entity `e`.
    fn slice_from(&self, e: i64, forward: bool) -> (r: Result<SliceResult, GraphQueryError>)
        requires
            self.wf(),
            self.has_record(e),
        ensures
            r is Ok && slice_ok(self, e, forward, r->Ok_0),
    {
        let target = match self.symbol_by_entity_id(e) {
            Ok(t) => t,
            Err(err) => return Err(err),
        };
        let included_symbols = self.reach_infos(e, forward, None);
        let symbol_count = included_symbols.len();
        let direction = if forward { SliceDirection::Forward } else { SliceDirection::Backward };
        Ok(SliceResult {
            slice: ProgramSlice { target, direction, included_symbols, symbol_count },
            statistics: SliceStatistics {
                total_symbols: symbol_count,
                data_dependencies: 0,
                control_dependencies: symbol_count,
            },
        })
    }
}

/// How the members of a cycle call each other.
#[derive(Debug, Clone, PartialEq, Eq, Structural)]
pub enum CycleKind {
    /// Two or more symbols that call each other.
    MutualRecursion,
    /// A symbol that calls itself.
    SelfLoop,
}

/// A cycle of the call graph.
#[derive(Debug, Clone, PartialEq, Eq)]
pub struct Cycle {
    /// The symbols in the cycle.
    pub members: Vec<SymbolInfo>,
    /// How they call each other.
    pub kind: CycleKind,
}

/// The cycles of the call graph.
#[derive(Debug, Clone, PartialEq, Eq)]
pub struct CycleReport {
    /// The cycles, sorted by the name of their first member.
    pub cycles: Vec<Cycle>,
    /// How many cycles there are.
    pub total_count: usize,
}

/// What a query reports of the ids in `c` that are symbols, in order.
pub open spec fn member_views(g: &CodeGraph, c: Seq<i64>) -> Seq<SymbolView>
    decreases c.len(),
{
    if c.len() == 0 {
        seq![]
    } else if g.has_record(c.last()) {
        member_views(g, c.drop_last()).push(g.info_of(c.last()))
    } else {
        member_views(g, c.drop_last())
    }
}

/// The members of the components as sequences.
pub open spec fn comp_seqs(cs: Seq<Vec<i64>>) -> Seq<Seq<i64>> {
    cs.map_values(|c: Vec<i64>| c@)
}

/// The kind of cycle a component is: two or more ids call each other;
/// a single id that calls itself is a self-loop; any other single id is
/// no cycle.
pub open spec fn comp_kind(g: &CodeGraph, c: Seq<i64>) -> Option<CycleKind> {
    if c.len() > 1 {
        Some(CycleKind::MutualRecursion)
    } else if c.len() == 1 && g.graph.next(true, c[0]).contains(c[0]) {
        Some(CycleKind::SelfLoop)
    } else {
        None
    }
}

/// The cycles among the components: each component that is a cycle (see
/// `comp_kind`) and has symbols among its ids, as those symbols with its
/// kind.
pub open spec fn cycle_candidates(g: &CodeGraph, cs: Seq<Seq<i64>>) -> Seq<(Seq<SymbolView>, CycleKind)>
    decreases cs.len(),
{
    if cs.len() == 0 {
        seq![]
    } else {
        let rest = cycle_candidates(g, cs.drop_last());
        let m = member_views(g, cs.last());
        match comp_kind(g, cs.last()) {
            Some(k) => if m.len() > 0 { rest.push((m, k)) } else { rest },
            None => rest,
        }
    }
}

/// The members and kind of each cycle.
pub open spec fn cycle_views(cs: Seq<Cycle>) -> Seq<(Seq<SymbolView>, CycleKind)> {
    cs.map_values(|c: Cycle| (views(c.members@), c.kind))
}

/// The order of cycles: by the name of the first member, named before
/// unnamed.
pub open spec fn lead_lt(a: Seq<SymbolView>, b: Seq<SymbolView>) -> bool {
    &&& a.len() > 0
    &&& b.len() > 0
    &&& match (a[0].fqn, b[0].fqn) {
        (Some(x), Some(y)) => seq_lt(x, y),
        (Some(_), None) => true,
        _ => false,
    }
}

/// Sorted by `lead_lt`.
pub open spec fn sorted_cycles(s: Seq<(Seq<SymbolView>, CycleKind)>) -> bool {
    forall|i: int, j: int| 0 <= i < j < s.len() ==> !lead_lt((#[trigger] s[j]).0, (#[trigger] s[i]).0)
}

proof fn lemma_lead_lt_transitive(a: Seq<SymbolView>, b: Seq<SymbolView>, c: Seq<SymbolView>)
    requires
        lead_lt(a, b),
        lead_lt(b, c),
    ensures
        lead_lt(a, c),
{
    if a[0].fqn is Some && b[0].fqn is Some && c[0].fqn is Some {
        lemma_seq_lt_transitive(a[0].fqn->0, b[0].fqn->0, c[0].fqn->0);
    }
}

proof fn lemma_lead_lt_irreflexive(a: Seq<SymbolView>)
    ensures
        !lead_lt(a, a),
{
    if a.len() > 0 && a[0].fqn is Some {
        lemma_seq_lt_irreflexive(a[0].fqn->0);
    }
}

/// What a cycle report over components `cs` holds: the cycles among them
/// with their kinds, sorted, and their number.
pub open spec fn report_ok(g: &CodeGraph, cs: Seq<Seq<i64>>, r: CycleReport) -> bool {
    &&& sorted_cycles(cycle_views(r.cycles@))
    &&& cycle_views(r.cycles@).to_multiset() == cycle_candidates(g, cs).to_multiset()
    &&& r.total_count == r.cycles@.len()
}

/// Whether the first member of cycle `a` comes before that of `b`.
fn cycle_lt(a: &Cycle, b: &Cycle) -> (r: bool)
    ensures
        r == lead_lt(views(a.members@), views(b.members@)),
{
    if a.members.len() == 0 || b.members.len() == 0 {
        return false;
    }
    match (&a.members[0].fqn, &b.members[0].fqn) {
        (Some(x), Some(y)) => str_lt(x.as_str(), y.as_str()),
        (Some(_), None) => true,
        _ => false,
    }
}

/// `lead_lt` on cycles as a value.
pub open spec fn cycle_order() -> spec_fn((Seq<SymbolView>, CycleKind), (Seq<SymbolView>, CycleKind)) -> bool {
    |a: (Seq<SymbolView>, CycleKind), b: (Seq<SymbolView>, CycleKind)| lead_lt(a.0, b.0)
}

/// Sorts the cycles by their first members, keeping cycles that compare
/// equal in the order they came.
fn sort_cycles(v: Vec<Cycle>) -> (r: Vec<Cycle>)
    ensures
        sorted_cycles(cycle_views(r@)),
        cycle_views(r@).to_multiset() == cycle_views(v@).to_multiset(),
        cycle_views(r@) == stable_sorted(cycle_views(v@), cycle_order()),
{
    broadcast use vstd::seq_lib::group_to_multiset_ensures;
    let mut v = v;
    let ghost orig = cycle_views(v@);
    let ghost n = v@.len();
    let mut out: Vec<Cycle> = Vec::new();
    assert(cycle_views(out@) =~= orig.take(0));
    assert(orig.skip(0) =~= orig);
    while v.len() > 0
        invariant
            v@.len() <= n,
            orig.len() == n,
            cycle_views(v@) == orig.skip(n - v@.len()),
            sorted_cycles(cycle_views(out@)),
            cycle_views(out@).to_multiset() == orig.take(n - v@.len()).to_multiset(),
            cycle_views(out@) == stable_sorted(orig.take(n - v@.len()), cycle_order()),
        decreases v@.len(),
    {
        let ghost done = n - v@.len();
        let ghost vv = v@;
        let x = v.remove(0);
        let ghost xv = (views(x.members@), x.kind);
        proof {
            assert(cycle_views(vv)[0] == xv);
            assert(orig[done] == xv);
            assert(v@ =~= vv.remove(0));
            assert forall|k: int| 0 <= k < v@.len() implies cycle_views(v@)[k] == orig.skip(done + 1)[k] by {
                assert(v@[k] == vv[k + 1]);
                assert(cycle_views(vv)[k + 1] == orig.skip(done)[k + 1]);
            }
            assert(cycle_views(v@) =~= orig.skip(done + 1));
            assert(orig.take(done + 1) =~= orig.take(done).push(xv));
        }
        let mut i: usize = 0;
        while i < out.len() && !cycle_lt(&x, &out[i])
            invariant
                i <= out@.len(),
                xv == (views(x.members@), x.kind),
                forall|a: int| 0 <= a < i ==> !lead_lt(xv.0, (#[trigger] cycle_views(out@)[a]).0),
            decreases out@.len() - i,
        {
            i = i + 1;
        }
        let ghost before = cycle_views(out@);
        out.insert(i, x);
        proof {
            let now = cycle_views(out@);
            assert(now =~= before.insert(i as int, xv));
            lemma_insert_to_multiset(before, i as int, xv);
            vstd::seq_lib::to_multiset_build(orig.take(done), xv);
            lemma_insert_pos(before, xv, cycle_order(), i as int);
            lemma_stable_sorted_step(orig, done, cycle_order());
            assert forall|a: int, b: int| 0 <= a < b < now.len() implies !lead_lt((#[trigger] now[b]).0, (#[trigger] now[a]).0) by {
                if b < i {
                    assert(now[a] == before[a] && now[b] == before[b]);
                } else if b == i {
                    assert(now[a] == before[a]);
                } else if a < i {
                    assert(now[a] == before[a] && now[b] == before[b - 1]);
                } else if a == i {
                    assert(now[b] == before[b - 1]);
                    assert(lead_lt(xv.0, before[i as int].0));
                    if lead_lt(before[b - 1].0, xv.0) {
                        lemma_lead_lt_transitive(before[b - 1].0, xv.0, before[i as int].0);
                        if b - 1 == i {
                            lemma_lead_lt_irreflexive(before[i as int].0);
                        }
                    }
                } else {
                    assert(now[a] == before[a - 1] && now[b] == before[b - 1]);
                }
            }
        }
    }
    assert(orig.take(n as int) =~= orig);
    out
}

impl CodeGraph {
    /// What a query reports of the ids in `c` that are symbols, in order.
    pub(crate) fn member_infos(&self, c: &Vec<i64>) -> (r: Vec<SymbolInfo>)
        requires
            self.wf(),
        ensures
            views(r@) == member_views(self, c@),
    {
        let mut out: Vec<SymbolInfo> = Vec::new();
        let mut k: usize = 0;
        assert(views(out@) =~= member_views(self, c@.take(0)));
        while k < c.len()
            invariant
                self.wf(),
                k <= c@.len(),
                views(out@) == member_views(self, c@.take(k as int)),
            decreases c@.len() - k,
        {
            assert(c@.take(k + 1).drop_last() =~= c@.take(k as int));
            assert(c@.take(k + 1).last() == c@[k as int]);
            match find_record(self, c[k]) {
                Some(i) => {
                    let info = info_from_record(&self.symbols[i]);
                    let ghost before = views(out@);
                    out.push(info);
                    assert(views(out@) =~= before.push(info@));
                },
                None => {},
            }
            k = k + 1;
        }
        assert(c@.take(c@.len() as int) =~= c@);
        out
    }

    /// The cycles among the components: each component of two or more ids
    /// with symbols among them, as a mutual recursion of those symbols, and
    /// each single symbol that calls itself, as a self-loop; sorted by the
    /// name of the first member (named before unnamed).
    pub fn cycle_report(&self, components: &Vec<Vec<i64>>) -> (r: CycleReport)
        requires
            self.wf(),
        ensures
            report_ok(self, comp_seqs(components@), r),
    {
        let index = node_index(&self.graph);
        let mut cycles: Vec<Cycle> = Vec::new();
        let mut i: usize = 0;
        assert(cycle_views(cycles@) =~= cycle_candidates(self, comp_seqs(components@).take(0)));
        while i < components.len()
            invariant
                self.wf(),
                forall|x: i64| #[trigger] index@.contains_key(x) <==> node_pos(self.graph.nodes@, x) is Some,
                forall|x: i64| #[trigger] index@.contains_key(x) ==> node_pos(self.graph.nodes@, x) == Some(index@[x] as int),
                i <= components@.len(),
                cycle_views(cycles@) == cycle_candidates(self, comp_seqs(components@).take(i as int)),
            decreases components@.len() - i,
        {
            let ghost cs = comp_seqs(components@);
            assert(cs.take(i + 1).drop_last() =~= cs.take(i as int));
            assert(cs.take(i + 1).last() == components@[i as int]@);
            let kind: Option<CycleKind> = if components[i].len() > 1 {
                Some(CycleKind::MutualRecursion)
            } else if components[i].len() == 1 && calls_itself(&self.graph, &index, components[i][0]) {
                Some(CycleKind::SelfLoop)
            } else {
                None
            };
            assert(kind == comp_kind(self, components@[i as int]@));
            match kind {
                Some(k) => {
                    let members = self.member_infos(&components[i]);
                    if members.len() > 0 {
                        let ghost before = cycle_views(cycles@);
                        let ghost mv = views(members@);
                        cycles.push(Cycle { members, kind: k });
                        assert(cycle_views(cycles@) =~= before.push((mv, k)));
                    }
                },
                None => {},
            }
            i = i + 1;
        }
        assert(comp_seqs(components@).take(components@.len() as int) =~= comp_seqs(components@));
        let cycles = sort_cycles(cycles);
        let total_count = cycles.len();
        CycleReport { cycles, total_count }
    }

    /// The cycles of the call graph: its strongly connected components of
    /// two or more ids (mutual recursion) and its symbols that call
    /// themselves alone (self-loops), each as its symbols, sorted by the
    /// name of their first member.
    pub fn detect_cycles(&self) -> (r: Result<CycleReport, GraphQueryError>)
        requires
            self.wf(),
        ensures
            r is Ok,
            exists|cs: Seq<Vec<i64>>, ntc: Map<i64, usize>| #[trigger] components_ok(&self.graph, cs, ntc)
                && scc_ordered(&self.graph, cs, ntc)
                && components_connected(&self.graph, cs) && report_ok(self, comp_seqs(cs), r->Ok_0),
    {
        let scc = strongly_connected_components(&self.graph);
        let report = self.cycle_report(&scc.components);
        assert(components_ok(&self.graph, scc.components@, scc.ntc()));
        Ok(report)
    }
}

/// What the cycles containing entity `e` are, given the components `cs`
/// and the component position `ntc` of each entity: the component of `e`
/// with its kind when it is a cycle (see `comp_kind`), else none.
pub open spec fn containing_ok(g: &CodeGraph, cs: Seq<Vec<i64>>, ntc: Map<i64, usize>, e: i64, out: Seq<Cycle>) -> bool {
    if ntc.contains_key(e) && ntc[e] < cs.len() && comp_kind(g, cs[ntc[e] as int]@) is Some {
        &&& out.len() == 1
        &&& views(out[0].members@) == member_views(g, cs[ntc[e] as int]@)
        &&& Some(out[0].kind) == comp_kind(g, cs[ntc[e] as int]@)
    } else {
        out.len() == 0
    }
}

/// The symbols of `c`: each is the record of an id of `c`.
proof fn lemma_member_views_contains(g: &CodeGraph, c: Seq<i64>, y: SymbolView)
    ensures
        member_views(g, c).contains(y) <==> exists|x: i64| #[trigger] c.contains(x) && g.has_record(x) && g.info_of(x) == y,
    decreases c.len(),
{
    if c.len() > 0 {
        let pre = c.drop_last();
        let l = c.last();
        lemma_member_views_contains(g, pre, y);
        assert forall|x: i64| c.contains(x) <==> (pre.contains(x) || x == l) by {
            if c.contains(x) {
                let q = choose|q: int| 0 <= q < c.len() && c[q] == x;
                if q < c.len() - 1 {
                    assert(pre[q] == x);
                }
            }
            if pre.contains(x) {
                let q = choose|q: int| 0 <= q < pre.len() && pre[q] == x;
                assert(c[q] == x);
            }
            if x == l {
                assert(c[c.len() - 1] == x);
            }
        }
        let m0 = member_views(g, pre);
        if g.has_record(l) {
            let m = m0.push(g.info_of(l));
            assert(member_views(g, c) == m);
            assert(m.contains(y) <==> (m0.contains(y) || g.info_of(l) == y)) by {
                if m.contains(y) {
                    let k = choose|k: int| 0 <= k < m.len() && m[k] == y;
                    if k < m0.len() {
                        assert(m0[k] == y);
                    }
                }
                if m0.contains(y) {
                    let k = choose|k: int| 0 <= k < m0.len() && m0[k] == y;
                    assert(m[k] == y);
                }
                if g.info_of(l) == y {
                    assert(m[m0.len() as int] == y);
                }
            }
            if exists|x: i64| #[trigger] c.contains(x) && g.has_record(x) && g.info_of(x) == y {
                let x = choose|x: i64| #[trigger] c.contains(x) && g.has_record(x) && g.info_of(x) == y;
                if x != l {
                    assert(pre.contains(x));
                }
            }
            if m0.contains(y) {
                let x = choose|x: i64| #[trigger] pre.contains(x) && g.has_record(x) && g.info_of(x) == y;
                assert(c.contains(x));
            }
            if g.info_of(l) == y {
                assert(c.contains(l));
            }
        } else {
            assert(member_views(g, c) == m0);
            if exists|x: i64| #[trigger] c.contains(x) && g.has_record(x) && g.info_of(x) == y {
                let x = choose|x: i64| #[trigger] c.contains(x) && g.has_record(x) && g.info_of(x) == y;
                assert(x != l);
                assert(pre.contains(x));
            }
            if m0.contains(y) {
                let x = choose|x: i64| #[trigger] pre.contains(x) && g.has_record(x) && g.info_of(x) == y;
                assert(c.contains(x));
            }
        }
    }
}

/// A component that is a cycle with symbols is among the candidates.
proof fn lemma_candidate_present(g: &CodeGraph, cs: Seq<Seq<i64>>, i: int, k: CycleKind)
    requires
        0 <= i < cs.len(),
        comp_kind(g, cs[i]) == Some(k),
        member_views(g, cs[i]).len() > 0,
    ensures
        cycle_candidates(g, cs).contains((member_views(g, cs[i]), k)),
    decreases cs.len(),
{
    let rest = cycle_candidates(g, cs.drop_last());
    if i == cs.len() - 1 {
        assert(cycle_candidates(g, cs) == rest.push((member_views(g, cs[i]), k)));
        assert(cycle_candidates(g, cs)[rest.len() as int] == (member_views(g, cs[i]), k));
    } else {
        assert(cs.drop_last()[i] == cs[i]);
        lemma_candidate_present(g, cs.drop_last(), i, k);
        let q = choose|q: int| 0 <= q < rest.len() && rest[q] == (member_views(g, cs[i]), k);
        let m = member_views(g, cs.last());
        match comp_kind(g, cs.last()) {
            Some(k2) => if m.len() > 0 {
                assert(cycle_candidates(g, cs)[q] == rest[q]);
            } else {
                assert(cycle_candidates(g, cs) == rest);
            },
            None => {
                assert(cycle_candidates(g, cs) == rest);
            },
        }
    }
}

/// The cycle that a search for one entity finds is one the report of all
/// cycles holds: whatever decompositions into strongly connected
/// components the two were computed over, when the search for `e` finds a
/// cycle, the report has a cycle of the same kind with the same symbols.
pub proof fn lemma_cycles_containing_agree(g: &CodeGraph, cs1: Seq<Vec<i64>>, ntc1: Map<i64, usize>,
    cs2: Seq<Vec<i64>>, ntc2: Map<i64, usize>, e: i64, out: Seq<Cycle>, report: CycleReport)
    requires
        components_ok(&g.graph, cs1, ntc1),
        scc_ordered(&g.graph, cs1, ntc1),
        components_connected(&g.graph, cs1),
        components_ok(&g.graph, cs2, ntc2),
        scc_ordered(&g.graph, cs2, ntc2),
        components_connected(&g.graph, cs2),
        g.graph.nodes@.contains(e),
        g.has_record(e),
        containing_ok(g, cs1, ntc1, e, out),
        report_ok(g, comp_seqs(cs2), report),
        out.len() == 1,
    ensures
        exists|j: int| 0 <= j < report.cycles@.len()
            && views((#[trigger] report.cycles@[j]).members@).to_set() == views(out[0].members@).to_set()
            && report.cycles@[j].kind == out[0].kind,
{
    broadcast use vstd::seq_lib::group_to_multiset_ensures;
    crate::scc::lemma_same_component_iff_mutual_reach(&g.graph, cs1, ntc1, e, e);
    crate::scc::lemma_same_component_iff_mutual_reach(&g.graph, cs2, ntc2, e, e);
    let i1 = ntc1[e] as int;
    let i2 = ntc2[e] as int;
    let c1 = cs1[i1]@;
    let c2 = cs2[i2]@;
    assert(c1.contains(e) && c2.contains(e));
    assert forall|x: i64| c1.contains(x) <==> c2.contains(x) by {
        if c1.contains(x) {
            let q = choose|q: int| 0 <= q < c1.len() && c1[q] == x;
            assert(g.graph.nodes@.contains(c1[q]));
            crate::scc::lemma_same_component_iff_mutual_reach(&g.graph, cs1, ntc1, x, e);
            crate::scc::lemma_same_component_iff_mutual_reach(&g.graph, cs2, ntc2, x, e);
            assert(ntc1[c1[q]] == i1);
        }
        if c2.contains(x) {
            let q = choose|q: int| 0 <= q < c2.len() && c2[q] == x;
            assert(g.graph.nodes@.contains(c2[q]));
            crate::scc::lemma_same_component_iff_mutual_reach(&g.graph, cs1, ntc1, x, e);
            crate::scc::lemma_same_component_iff_mutual_reach(&g.graph, cs2, ntc2, x, e);
            assert(ntc2[c2[q]] == i2);
        }
    }
    assert(c1.no_duplicates() && c2.no_duplicates());
    assert(c1.to_set() =~= c2.to_set());
    c1.unique_seq_to_set();
    c2.unique_seq_to_set();
    assert(c1.len() == c2.len());
    if c1.len() == 1 {
        let q1 = choose|q: int| 0 <= q < c1.len() && c1[q] == e;
        let q2 = choose|q: int| 0 <= q < c2.len() && c2[q] == e;
        assert(c1[0] == e && c2[0] == e);
    }
    assert(comp_kind(g, c1) == comp_kind(g, c2));
    let k = out[0].kind;
    let cs = comp_seqs(cs2);
    assert(cs[i2] == c2);
    lemma_member_views_contains(g, c2, g.info_of(e));
    assert(member_views(g, c2).contains(g.info_of(e)));
    lemma_candidate_present(g, cs, i2, k);
    let cand = (member_views(g, c2), k);
    assert(cycle_candidates(g, cs).to_multiset().count(cand) > 0);
    assert(cycle_views(report.cycles@).to_multiset().count(cand) > 0);
    assert(cycle_views(report.cycles@).contains(cand));
    let j = choose|j: int| 0 <= j < cycle_views(report.cycles@).len() && cycle_views(report.cycles@)[j] == cand;
    assert(views(report.cycles@[j].members@) == member_views(g, c2));
    assert(views(out[0].members@) == member_views(g, c1));
    assert forall|y: SymbolView| member_views(g, c1).contains(y) <==> member_views(g, c2).contains(y) by {
        lemma_member_views_contains(g, c1, y);
        lemma_member_views_contains(g, c2, y);
    }
    assert(member_views(g, c1).to_set() =~= member_views(g, c2).to_set());
}

/// A node of the graph of components: a component, named by its first
/// member.
#[derive(Debug, Clone, PartialEq, Eq)]
pub struct Supernode {
    /// The first member's entity id.
    pub id: i64,
    /// The symbols in the component.
    pub members: Vec<SymbolInfo>,
}

/// The graph of components, which has no cycles.
#[derive(Debug, Clone, PartialEq, Eq)]
pub struct CondensationGraph {
    /// The components, by id.
    pub supernodes: Vec<Supernode>,
    /// The calls between different components, sorted, each once.
    pub edges: Vec<(i64, i64)>,
}

/// The graph of components, with the component of each symbol.
pub struct CondensationResult {
    /// The graph of components.
    pub graph: CondensationGraph,
    /// The component id of each stable symbol id.
    pub original_to_supernode: StringHashMap<i64>,
}

/// Each node of the graph of components as its id and symbols.
pub open spec fn node_views(s: Seq<Supernode>) -> Seq<(i64, Seq<SymbolView>)> {
    s.map_values(|n: Supernode| (n.id, views(n.members@)))
}

/// The stable ids of the symbols `m`, each mapped to `id`, over `acc`.
pub open spec fn member_sids(m: Seq<SymbolView>, id: i64, acc: Map<Seq<char>, i64>) -> Map<Seq<char>, i64>
    decreases m.len(),
{
    if m.len() == 0 {
        acc
    } else {
        let a = member_sids(m.drop_last(), id, acc);
        match m.last().symbol_id {
            Some(sid) => a.insert(sid, id),
            None => a,
        }
    }
}

/// The stable id of each symbol of the nodes mapped to its node's id, the
/// nodes taken in order (so a stable id held by two nodes goes to the
/// later).
pub open spec fn sid_map(ns: Seq<(i64, Seq<SymbolView>)>) -> Map<Seq<char>, i64>
    decreases ns.len(),
{
    if ns.len() == 0 {
        Map::empty()
    } else {
        member_sids(ns.last().1, ns.last().0, sid_map(ns.drop_last()))
    }
}

/// Each stable id in the map is held by a symbol of the node it maps to,
/// and each stable id held by a symbol of a node is in the map.
pub proof fn lemma_sid_map_holds(ns: Seq<(i64, Seq<SymbolView>)>, sid: Seq<char>)
    ensures
        sid_map(ns).contains_key(sid) <==> exists|i: int, j: int| 0 <= i < ns.len() && 0 <= j < ns[i].1.len()
            && #[trigger] ns[i].1[j].symbol_id == Some(sid),
        sid_map(ns).contains_key(sid) ==> exists|i: int, j: int| 0 <= i < ns.len() && 0 <= j < ns[i].1.len()
            && #[trigger] ns[i].1[j].symbol_id == Some(sid) && ns[i].0 == sid_map(ns)[sid],
    decreases ns.len(),
{
    if ns.len() > 0 {
        let pre = ns.drop_last();
        lemma_sid_map_holds(pre, sid);
        lemma_member_sids_holds(ns.last().1, ns.last().0, sid_map(pre), sid);
        let n = ns.len() - 1;
        if exists|i: int, j: int| 0 <= i < pre.len() && 0 <= j < pre[i].1.len() && #[trigger] pre[i].1[j].symbol_id == Some(sid) {
            let (i, j) = choose|i: int, j: int| 0 <= i < pre.len() && 0 <= j < pre[i].1.len() && #[trigger] pre[i].1[j].symbol_id == Some(sid);
            assert(ns[i] == pre[i]);
            assert(ns[i].1[j].symbol_id == Some(sid));
        }
        if exists|i: int, j: int| 0 <= i < ns.len() && 0 <= j < ns[i].1.len() && #[trigger] ns[i].1[j].symbol_id == Some(sid) {
            let (i, j) = choose|i: int, j: int| 0 <= i < ns.len() && 0 <= j < ns[i].1.len() && #[trigger] ns[i].1[j].symbol_id == Some(sid);
            if i < n {
                assert(pre[i] == ns[i]);
                assert(pre[i].1[j].symbol_id == Some(sid));
            } else {
                assert(ns.last().1[j].symbol_id == Some(sid));
            }
        }
        if sid_map(ns).contains_key(sid) {
            if exists|j: int| 0 <= j < ns.last().1.len() && #[trigger] ns.last().1[j].symbol_id == Some(sid) {
                let j = choose|j: int| 0 <= j < ns.last().1.len() && #[trigger] ns.last().1[j].symbol_id == Some(sid);
                assert(ns[n].1[j].symbol_id == Some(sid));
            } else {
                let (i, j) = choose|i: int, j: int| 0 <= i < pre.len() && 0 <= j < pre[i].1.len()
                    && #[trigger] pre[i].1[j].symbol_id == Some(sid) && pre[i].0 == sid_map(pre)[sid];
                assert(ns[i] == pre[i]);
                assert(ns[i].1[j].symbol_id == Some(sid));
            }
        }
    }
}

proof fn lemma_member_sids_holds(m: Seq<SymbolView>, id: i64, acc: Map<Seq<char>, i64>, sid: Seq<char>)
    ensures
        member_sids(m, id, acc).contains_key(sid) <==> (acc.contains_key(sid)
            || exists|j: int| 0 <= j < m.len() && #[trigger] m[j].symbol_id == Some(sid)),
        (exists|j: int| 0 <= j < m.len() && #[trigger] m[j].symbol_id == Some(sid)) ==> member_sids(m, id, acc)[sid] == id,
        !(exists|j: int| 0 <= j < m.len() && #[trigger] m[j].symbol_id == Some(sid)) ==> member_sids(m, id, acc)[sid] == acc[sid],
    decreases m.len(),
{
    if m.len() > 0 {
        let pre = m.drop_last();
        lemma_member_sids_holds(pre, id, acc, sid);
        if exists|j: int| 0 <= j < pre.len() && #[trigger] pre[j].symbol_id == Some(sid) {
            let j = choose|j: int| 0 <= j < pre.len() && #[trigger] pre[j].symbol_id == Some(sid);
            assert(m[j] == pre[j]);
            assert(m[j].symbol_id == Some(sid));
        }
        if exists|j: int| 0 <= j < m.len() && #[trigger] m[j].symbol_id == Some(sid) {
            let j = choose|j: int| 0 <= j < m.len() && #[trigger] m[j].symbol_id == Some(sid);
            if j < m.len() - 1 {
                assert(pre[j] == m[j]);
                assert(pre[j].symbol_id == Some(sid));
            }
        }
        if !(exists|j: int| 0 <= j < m.len() && #[trigger] m[j].symbol_id == Some(sid)) {
            assert(m[m.len() - 1].symbol_id != Some(sid));
            assert forall|j: int| 0 <= j < pre.len() implies #[trigger] pre[j].symbol_id != Some(sid) by {
                assert(pre[j] == m[j]);
            }
        }
    }
}

/// Sorted by id.
pub open spec fn sorted_ids(s: Seq<(i64, Seq<SymbolView>)>) -> bool {
    forall|i: int, j: int| 0 <= i < j < s.len() ==> (#[trigger] s[i]).0 <= (#[trigger] s[j]).0
}

/// The nodes of the graph of components `cs`: each named by its first
/// member, with its symbols.
pub open spec fn supernode_candidates(g: &CodeGraph, cs: Seq<Seq<i64>>) -> Seq<(i64, Seq<SymbolView>)> {
    cs.map_values(|c: Seq<i64>| (c[0], member_views(g, c)))
}

/// The id of the component of `v`.
pub open spec fn lead(cs: Seq<Vec<i64>>, ntc: Map<i64, usize>, v: i64) -> i64 {
    cs[ntc[v] as int]@[0]
}

/// An edge of the graph of components: a call from a member of one
/// component to a member of another.
pub open spec fn condensed_edge(g: &CodeGraph, cs: Seq<Vec<i64>>, ntc: Map<i64, usize>, e: (i64, i64)) -> bool {
    exists|v: i64, w: i64| #![trigger g.graph.next(true, v).contains(w)]
        members_of(cs).contains(v) && members_of(cs).contains(w) && g.graph.next(true, v).contains(w)
        && lead(cs, ntc, v) != lead(cs, ntc, w) && e == (lead(cs, ntc, v), lead(cs, ntc, w))
}

/// An edge of the graph of components goes from a component to one
/// completed before it.
proof fn lemma_condensed_edge_descends(g: &CodeGraph, cs: Seq<Vec<i64>>, ntc: Map<i64, usize>, e: (i64, i64))
    requires
        g.wf(),
        components_ok(&g.graph, cs, ntc),
        scc_ordered(&g.graph, cs, ntc),
        condensed_edge(g, cs, ntc, e),
    ensures
        ntc.contains_key(e.0),
        ntc.contains_key(e.1),
        ntc[e.1] < ntc[e.0],
{
    let (v, w) = choose|v: i64, w: i64| #![trigger g.graph.next(true, v).contains(w)]
        members_of(cs).contains(v) && members_of(cs).contains(w) && g.graph.next(true, v).contains(w)
        && lead(cs, ntc, v) != lead(cs, ntc, w) && e == (lead(cs, ntc, v), lead(cs, ntc, w));
    crate::call_graph::lemma_node_pos::<i64>(g.graph.nodes@, v);
    assert(g.graph.nodes@.contains(v));
    assert(ntc.contains_key(v));
    assert(ntc.contains_key(w) && ntc[w] <= ntc[v]);
    assert(cs[ntc[v] as int]@.len() > 0);
    assert(cs[ntc[w] as int]@.len() > 0);
    assert(ntc[cs[ntc[v] as int]@[0]] == ntc[v]);
    assert(ntc[cs[ntc[w] as int]@[0]] == ntc[w]);
}

/// Along a walk of two or more nodes over the edges of the graph of
/// components, the position of the component strictly falls.
proof fn lemma_condensed_walk_descends(g: &CodeGraph, cs: Seq<Vec<i64>>, ntc: Map<i64, usize>, r: CondensationResult, p: Seq<i64>)
    requires
        g.wf(),
        components_ok(&g.graph, cs, ntc),
        scc_ordered(&g.graph, cs, ntc),
        condensed_ok(g, cs, ntc, r),
        p.len() >= 2,
        forall|k: int| 0 <= k < p.len() - 1 ==> r.graph.edges@.contains((#[trigger] p[k], p[k + 1])),
    ensures
        ntc.contains_key(p[0]),
        ntc.contains_key(p.last()),
        ntc[p.last()] < ntc[p[0]],
    decreases p.len(),
{
    assert(r.graph.edges@.contains((p[0], p[1])));
    lemma_condensed_edge_descends(g, cs, ntc, (p[0], p[1]));
    if p.len() > 2 {
        let q = p.subrange(1, p.len() as int);
        assert forall|k: int| 0 <= k < q.len() - 1 implies r.graph.edges@.contains((#[trigger] q[k], q[k + 1])) by {
            assert(q[k] == p[k + 1] && q[k + 1] == p[k + 2]);
            assert(r.graph.edges@.contains((p[k + 1], p[k + 2])));
        }
        lemma_condensed_walk_descends(g, cs, ntc, r, q);
        assert(q.last() == p.last());
    }
}

/// The graph of components has no cycle: a walk of one step or more along
/// its edges never ends where it started.
pub proof fn lemma_condensation_acyclic(g: &CodeGraph, cs: Seq<Vec<i64>>, ntc: Map<i64, usize>, r: CondensationResult, p: Seq<i64>)
    requires
        g.wf(),
        components_ok(&g.graph, cs, ntc),
        scc_ordered(&g.graph, cs, ntc),
        condensed_ok(g, cs, ntc, r),
        p.len() >= 2,
        forall|k: int| 0 <= k < p.len() - 1 ==> r.graph.edges@.contains((#[trigger] p[k], p[k + 1])),
    ensures
        p[0] != p.last(),
{
    lemma_condensed_walk_descends(g, cs, ntc, r, p);
}

/// What the graph of components over `cs` holds: its nodes, sorted by id,
/// and its edges, sorted, each once.
pub open spec fn condensed_ok(g: &CodeGraph, cs: Seq<Vec<i64>>, ntc: Map<i64, usize>, r: CondensationResult) -> bool {
    &&& sorted_ids(node_views(r.graph.supernodes@))
    &&& node_views(r.graph.supernodes@).to_multiset() == supernode_candidates(g, comp_seqs(cs)).to_multiset()
    &&& strictly_sorted(r.graph.edges@)
    &&& forall|e: (i64, i64)| #[trigger] r.graph.edges@.contains(e) <==> condensed_edge(g, cs, ntc, e)
    &&& r.original_to_supernode@ == sid_map(node_views(r.graph.supernodes@))
}

/// The order of nodes by id, as a value.
pub open spec fn id_order() -> spec_fn((i64, Seq<SymbolView>), (i64, Seq<SymbolView>)) -> bool {
    |a: (i64, Seq<SymbolView>), b: (i64, Seq<SymbolView>)| a.0 < b.0
}

/// Sorts nodes by id, nodes with the same id kept in the order they came.
fn sort_supernodes(v: Vec<Supernode>) -> (r: Vec<Supernode>)
    ensures
        sorted_ids(node_views(r@)),
        node_views(r@).to_multiset() == node_views(v@).to_multiset(),
        node_views(r@) == stable_sorted(node_views(v@), id_order()),
{
    broadcast use vstd::seq_lib::group_to_multiset_ensures;
    let mut v = v;
    let ghost orig = node_views(v@);
    let ghost n = v@.len();
    let mut out: Vec<Supernode> = Vec::new();
    assert(node_views(out@) =~= orig.take(0));
    assert(orig.skip(0) =~= orig);
    while v.len() > 0
        invariant
            v@.len() <= n,
            orig.len() == n,
            node_views(v@) == orig.skip(n - v@.len()),
            sorted_ids(node_views(out@)),
            node_views(out@).to_multiset() == orig.take(n - v@.len()).to_multiset(),
            node_views(out@) == stable_sorted(orig.take(n - v@.len()), id_order()),
        decreases v@.len(),
    {
        let ghost done = n - v@.len();
        let ghost vv = v@;
        let x = v.remove(0);
        let ghost xv = (x.id, views(x.members@));
        proof {
            assert(node_views(vv)[0] == xv);
            assert(orig[done] == xv);
            assert(v@ =~= vv.remove(0));
            assert forall|k: int| 0 <= k < v@.len() implies node_views(v@)[k] == orig.skip(done + 1)[k] by {
                assert(v@[k] == vv[k + 1]);
                assert(node_views(vv)[k + 1] == orig.skip(done)[k + 1]);
            }
            assert(node_views(v@) =~= orig.skip(done + 1));
            assert(orig.take(done + 1) =~= orig.take(done).push(xv));
        }
        let mut i: usize = 0;
        while i < out.len() && out[i].id <= x.id
            invariant
                i <= out@.len(),
                xv == (x.id, views(x.members@)),
                forall|a: int| 0 <= a < i ==> (#[trigger] node_views(out@)[a]).0 <= xv.0,
            decreases out@.len() - i,
        {
            i = i + 1;
        }
        let ghost before = node_views(out@);
        out.insert(i, x);
        proof {
            let now = node_views(out@);
            assert(now =~= before.insert(i as int, xv));
            lemma_insert_to_multiset(before, i as int, xv);
            vstd::seq_lib::to_multiset_build(orig.take(done), xv);
            lemma_insert_pos(before, xv, id_order(), i as int);
            lemma_stable_sorted_step(orig, done, id_order());
            assert forall|a: int, b: int| 0 <= a < b < now.len() implies (#[trigger] now[a]).0 <= (#[trigger] now[b]).0 by {
                if b < i {
                    assert(now[a] == before[a] && now[b] == before[b]);
                } else if b == i {
                    assert(now[a] == before[a]);
                } else if a < i {
                    assert(now[a] == before[a] && now[b] == before[b - 1]);
                } else if a == i {
                    assert(now[b] == before[b - 1]);
                    assert(before[i as int].0 > xv.0);
                    if b - 1 > i {
                        assert(before[i as int].0 <= before[b - 1].0);
                    }
                } else {
                    assert(now[a] == before[a - 1] && now[b] == before[b - 1]);
                }
            }
        }
    }
    assert(orig.take(n as int) =~= orig);
    out
}

impl CodeGraph {
    /// The cycles that contain entity `e`, given the components: its
    /// component as a mutual recursion when it has two or more ids, as a
    /// self-loop when `e` alone calls itself, else none.
    pub fn cycles_containing(&self, scc: &SccResult, e: i64) -> (r: Vec<Cycle>)
        requires
            self.wf(),
        ensures
            containing_ok(self, scc.components@, scc.ntc(), e, r@),
    {
        let mut out: Vec<Cycle> = Vec::new();
        let index = node_index(&self.graph);
        match pos_map_get(&scc.node_to_component, e) {
            Some(idx) => {
                if idx < scc.components.len() {
                    let c = &scc.components[idx];
                    let kind: Option<CycleKind> = if c.len() > 1 {
                        Some(CycleKind::MutualRecursion)
                    } else if c.len() == 1 && calls_itself(&self.graph, &index, c[0]) {
                        Some(CycleKind::SelfLoop)
                    } else {
                        None
                    };
                    assert(kind == comp_kind(self, c@));
                    match kind {
                        Some(k) => {
                            let members = self.member_infos(c);
                            out.push(Cycle { members, kind: k });
                        },
                        None => {},
                    }
                }
            },
            None => {},
        }
        out
    }

    /// The cycles that contain the symbol named `symbol_id`: its strongly
    /// connected component when that has two or more ids, or the symbol
    /// alone when it calls itself, else none.
    pub fn find_cycles_containing(&self, symbol_id: &str) -> (r: Result<Vec<Cycle>, GraphQueryError>)
        requires
            self.wf(),
        ensures
            r is Ok <==> self.resolvable(symbol_id@),
            r is Ok ==> exists|e: i64, cs: Seq<Vec<i64>>, ntc: Map<i64, usize>|
                #![trigger self.resolves(symbol_id@, e), components_ok(&self.graph, cs, ntc)]
                self.resolves(symbol_id@, e) && components_ok(&self.graph, cs, ntc)
                && scc_ordered(&self.graph, cs, ntc)
                && components_connected(&self.graph, cs) && containing_ok(self, cs, ntc, e, r->Ok_0@),
            r is Err ==> (r->Err_0 matches GraphQueryError::SymbolNotFound(s) && s@ == symbol_id@),
    {
        let e = self.resolve_symbol_entity(symbol_id)?;
        let scc = strongly_connected_components(&self.graph);
        let out = self.cycles_containing(&scc, e);
        assert(components_ok(&self.graph, scc.components@, scc.ntc()));
        Ok(out)
    }

    /// The graph of components, given the collapsed components: one node
    /// per component with its symbols, sorted by id, the edges as they
    /// are, and the component id of each stable symbol id.
    pub fn condensation(&self, collapse: &SccCollapse) -> (r: CondensationResult)
        requires
            self.wf(),
        ensures
            sorted_ids(node_views(r.graph.supernodes@)),
            node_views(r.graph.supernodes@).to_multiset()
                == collapse.supernode_members@.map_values(|p: (i64, Vec<i64>)| (p.0, member_views(self, p.1@))).to_multiset(),
            r.graph.edges@ == collapse.supernode_edges@,
            r.original_to_supernode@ == sid_map(node_views(r.graph.supernodes@)),
    {
        let mut nodes: Vec<Supernode> = Vec::new();
        let mut i: usize = 0;
        let ghost src = collapse.supernode_members@.map_values(|p: (i64, Vec<i64>)| (p.0, member_views(self, p.1@)));
        assert(node_views(nodes@) =~= src.take(0));
        while i < collapse.supernode_members.len()
            invariant
                self.wf(),
                i <= collapse.supernode_members@.len(),
                src == collapse.supernode_members@.map_values(|p: (i64, Vec<i64>)| (p.0, member_views(self, p.1@))),
                node_views(nodes@) == src.take(i as int),
            decreases collapse.supernode_members@.len() - i,
        {
            let (id, mem) = (collapse.supernode_members[i].0, &collapse.supernode_members[i].1);
            let members = self.member_infos(mem);
            let ghost before = node_views(nodes@);
            let ghost mv = views(members@);
            nodes.push(Supernode { id, members });
            assert(node_views(nodes@) =~= before.push((id, mv)));
            assert(src.take(i + 1) =~= src.take(i as int).push(src[i as int]));
            i = i + 1;
        }
        assert(src.take(collapse.supernode_members@.len() as int) =~= src);
        let supernodes = sort_supernodes(nodes);
        let mut original_to_supernode: StringHashMap<i64> = StringHashMap::new();
        let mut a: usize = 0;
        let ghost nv = node_views(supernodes@);
        assert(nv.take(0) =~= Seq::<(i64, Seq<SymbolView>)>::empty());
        while a < supernodes.len()
            invariant
                a <= supernodes@.len(),
                nv == node_views(supernodes@),
                original_to_supernode@ == sid_map(nv.take(a as int)),
            decreases supernodes@.len() - a,
        {
            let node = &supernodes[a];
            let ghost base = original_to_supernode@;
            let ghost mv = views(node.members@);
            let mut b: usize = 0;
            assert(mv.take(0) =~= Seq::<SymbolView>::empty());
            while b < node.members.len()
                invariant
                    b <= node.members@.len(),
                    mv == views(node.members@),
                    original_to_supernode@ == member_sids(mv.take(b as int), node.id, base),
                decreases node.members@.len() - b,
            {
                assert(mv.take(b + 1).drop_last() =~= mv.take(b as int));
                assert(mv.take(b + 1).last() == node.members@[b as int]@);
                if let Some(sid) = &node.members[b].symbol_id {
                    original_to_supernode.insert(sid.clone(), node.id);
                }
                b = b + 1;
            }
            assert(mv.take(node.members@.len() as int) =~= mv);
            assert(nv.take(a + 1).drop_last() =~= nv.take(a as int));
            assert(nv.take(a + 1).last() == (node.id, mv));
            a = a + 1;
        }
        assert(nv.take(supernodes@.len() as int) =~= nv);
        let mut edges: Vec<(i64, i64)> = Vec::new();
        let mut k: usize = 0;
        while k < collapse.supernode_edges.len()
            invariant
                k <= collapse.supernode_edges@.len(),
                edges@ == collapse.supernode_edges@.take(k as int),
            decreases collapse.supernode_edges@.len() - k,
        {
            edges.push(collapse.supernode_edges[k]);
            assert(collapse.supernode_edges@.take(k + 1) =~= collapse.supernode_edges@.take(k as int).push(collapse.supernode_edges@[k as int]));
            k = k + 1;
        }
        assert(collapse.supernode_edges@.take(collapse.supernode_edges@.len() as int) =~= collapse.supernode_edges@);
        CondensationResult { graph: CondensationGraph { supernodes, edges }, original_to_supernode }
    }

    /// The call graph with each strongly connected component collapsed to
    /// one node: the nodes with their symbols, sorted by id, and the calls
    /// between different components, sorted, each once.
    pub fn condense_call_graph(&self) -> (r: Result<CondensationResult, GraphQueryError>)
        requires
            self.wf(),
        ensures
            r is Ok,
            exists|cs: Seq<Vec<i64>>, ntc: Map<i64, usize>| #[trigger] components_ok(&self.graph, cs, ntc)
                && scc_ordered(&self.graph, cs, ntc)
                && components_connected(&self.graph, cs) && condensed_ok(self, cs, ntc, r->Ok_0),
    {
        let scc = strongly_connected_components(&self.graph);
        let collapse = collapse_sccs(&self.graph, &scc);
        let r = self.condensation(&collapse);
        proof {
            let cs = scc.components@;
            let ntc = scc.ntc();
            let rep = collapse.supernode_of();
            let left = collapse.supernode_members@.map_values(|p: (i64, Vec<i64>)| (p.0, member_views(self, p.1@)));
            assert(left =~= supernode_candidates(self, comp_seqs(cs)));
            assert forall|e: (i64, i64)| #[trigger] r.graph.edges@.contains(e) <==> condensed_edge(self, cs, ntc, e) by {
                if r.graph.edges@.contains(e) {
                    assert(crate::scc::is_collapsed_edge(&self.graph, rep, e));
                    let (v, w) = choose|v: i64, w: i64| #![trigger self.graph.next(true, v).contains(w), rep[v], rep[w]]
                        rep.contains_key(v) && rep.contains_key(w) && self.graph.next(true, v).contains(w)
                        && rep[v] != rep[w] && e == (rep[v], rep[w]);
                    assert(rep.contains_key(v) && rep.contains_key(w));
                    assert(members_of(cs).contains(v) && members_of(cs).contains(w));
                    assert(rep[v] == lead(cs, ntc, v) && rep[w] == lead(cs, ntc, w));
                }
                if condensed_edge(self, cs, ntc, e) {
                    let (v, w) = choose|v: i64, w: i64| #![trigger self.graph.next(true, v).contains(w)]
                        members_of(cs).contains(v) && members_of(cs).contains(w) && self.graph.next(true, v).contains(w)
                        && lead(cs, ntc, v) != lead(cs, ntc, w) && e == (lead(cs, ntc, v), lead(cs, ntc, w));
                    assert(rep.contains_key(v) && rep.contains_key(w));
                    assert(rep[v] == lead(cs, ntc, v) && rep[w] == lead(cs, ntc, w));
                    assert(crate::scc::is_collapsed_edge(&self.graph, rep, e));
                }
            }
            assert(condensed_ok(self, cs, ntc, r));
        }
        Ok(r)
    }
}

} // verus!
