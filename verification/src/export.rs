//! Graph export: the formats and options, the records an export holds, the
//! order they are written in, and what an export of a given configuration
//! produces.

use vstd::prelude::*;
use vstd::multiset::Multiset;
use crate::order::{seq_lt, opt_seq_lt, opt_chars, lemma_opt_seq_lt_transitive, lemma_opt_seq_lt_irreflexive, stable_sorted, lemma_insert_pos, lemma_stable_sorted_step};
use crate::text::{str_eq, starts_with_lit, chars_of, string_from_range};

verus! {

broadcast use vstd::string::group_string_axioms;

/// The formats a graph can be exported in.
#[derive(Debug, Clone, Copy, PartialEq, Eq, Structural)]
pub enum ExportFormat {
    /// One JSON document.
    Json,
    /// JSON Lines, one record per line.
    JsonL,
    /// Graphviz DOT.
    Dot,
    /// CSV.
    Csv,
    /// SCIP (binary).
    Scip,
    /// LSIF.
    Lsif,
    /// Impact analysis of one symbol.
    Impact,
}

/// The name a format is selected by.
pub open spec fn format_name(f: ExportFormat) -> Seq<char> {
    match f {
        ExportFormat::Json => "json"@,
        ExportFormat::JsonL => "jsonl"@,
        ExportFormat::Dot => "dot"@,
        ExportFormat::Csv => "csv"@,
        ExportFormat::Scip => "scip"@,
        ExportFormat::Lsif => "lsif"@,
        ExportFormat::Impact => "impact"@,
    }
}

/// The format selected by `name`, if any.
pub open spec fn format_from_name(name: Seq<char>) -> Option<ExportFormat> {
    if name == "json"@ {
        Some(ExportFormat::Json)
    } else if name == "jsonl"@ {
        Some(ExportFormat::JsonL)
    } else if name == "dot"@ {
        Some(ExportFormat::Dot)
    } else if name == "csv"@ {
        Some(ExportFormat::Csv)
    } else if name == "scip"@ {
        Some(ExportFormat::Scip)
    } else if name == "lsif"@ {
        Some(ExportFormat::Lsif)
    } else if name == "impact"@ {
        Some(ExportFormat::Impact)
    } else {
        None
    }
}

/// The lowercase form of a text, as `str::to_lowercase` gives it.
pub uninterp spec fn lowercase(s: Seq<char>) -> Seq<char>;

/// Whether every character of a text is ASCII.
pub open spec fn all_ascii(s: Seq<char>) -> bool {
    forall|i: int| 0 <= i < s.len() ==> (#[trigger] s[i] as u32) < 128
}

/// An ASCII upper-case letter in lower case; any other character as it is.
pub open spec fn ascii_lower(c: char) -> char {
    if 'A' <= c && c <= 'Z' { ((c as u32) + 32) as char } else { c }
}

/// `str::to_lowercase`. Trusted: the result is the lowercase form of the
/// text, which this crate names and does not spell out in general; for an
/// ASCII text it is the text with each letter `A`-`Z` made `a`-`z` (the
/// Unicode lowercase mapping of ASCII, as std documents for
/// `char::to_ascii_lowercase` and `to_lowercase` alike).
#[verifier::external_body]
fn to_lowercase(s: &str) -> (r: String)
    ensures
        r@ == lowercase(s@),
        all_ascii(s@) ==> r@ == s@.map_values(|c: char| ascii_lower(c)),
{
    s.to_lowercase()
}

impl ExportFormat {
    /// The format selected by a name, read without regard to case.
    pub fn parse_format(s: &str) -> (r: Option<Self>)
        ensures
            r == format_from_name(lowercase(s@)),
            all_ascii(s@) ==> r == format_from_name(s@.map_values(|c: char| ascii_lower(c))),
    {
        let lower = to_lowercase(s);
        Self::from_lowercase_name(lower.as_str())
    }

    /// The format selected by a name already in lowercase.
    pub fn from_lowercase_name(name: &str) -> (r: Option<Self>)
        ensures
            r == format_from_name(name@),
    {
        if str_eq(name, "json") {
            Some(ExportFormat::Json)
        } else if str_eq(name, "jsonl") {
            Some(ExportFormat::JsonL)
        } else if str_eq(name, "dot") {
            Some(ExportFormat::Dot)
        } else if str_eq(name, "csv") {
            Some(ExportFormat::Csv)
        } else if str_eq(name, "scip") {
            Some(ExportFormat::Scip)
        } else if str_eq(name, "lsif") {
            Some(ExportFormat::Lsif)
        } else if str_eq(name, "impact") {
            Some(ExportFormat::Impact)
        } else {
            None
        }
    }
}

/// Each format is selected by its own name.
pub proof fn lemma_format_name_roundtrip(f: ExportFormat)
    ensures
        format_from_name(format_name(f)) == Some(f),
{
    reveal_strlit("json");
    reveal_strlit("jsonl");
    reveal_strlit("dot");
    reveal_strlit("csv");
    reveal_strlit("scip");
    reveal_strlit("lsif");
    reveal_strlit("impact");
    assert("dot"@[0] != "csv"@[0]);
    assert("scip"@[0] != "lsif"@[0]);
    assert("json"@[0] != "scip"@[0]);
    assert("json"@[0] != "lsif"@[0]);
    assert("json"@.len() == 4 && "jsonl"@.len() == 5 && "dot"@.len() == 3 && "csv"@.len() == 3);
    assert("scip"@.len() == 4 && "lsif"@.len() == 4 && "impact"@.len() == 6);
    assert("json"@ != "jsonl"@ && "json"@ != "dot"@ && "json"@ != "csv"@ && "json"@ != "impact"@);
    assert("jsonl"@ != "dot"@ && "jsonl"@ != "csv"@ && "jsonl"@ != "scip"@ && "jsonl"@ != "lsif"@);
    assert("dot"@ != "scip"@ && "dot"@ != "lsif"@ && "csv"@ != "scip"@ && "csv"@ != "lsif"@);
    assert("json"@ != "scip"@ && "json"@ != "lsif"@ && "scip"@ != "lsif"@ && "dot"@ != "csv"@);
}

/// The field that collision groups are formed on.
#[derive(Debug, Clone, Copy, PartialEq, Eq, Structural)]
pub enum CollisionField {
    /// The fully qualified name.
    Fqn,
}

/// Restrictions on what a DOT export shows.
#[derive(Debug, Clone)]
pub struct ExportFilters {
    /// Only calls from or to symbols in this file.
    pub file: Option<String>,
    /// Only calls from or to this symbol.
    pub symbol: Option<String>,
    /// Only symbols of this kind.
    pub kind: Option<String>,
    /// Greatest depth of traversal (none: unlimited).
    pub max_depth: Option<usize>,
    /// Group nodes by file.
    pub cluster: bool,
}

impl Default for ExportFilters {
    /// No restriction.
    fn default() -> (r: Self)
        ensures
            r.file is None,
            r.symbol is None,
            r.kind is None,
            r.max_depth is None,
            !r.cluster,
    {
        ExportFilters { file: None, symbol: None, kind: None, max_depth: None, cluster: false }
    }
}

/// What to export and how.
#[derive(Debug, Clone)]
pub struct ExportConfig {
    /// Output format.
    pub format: ExportFormat,
    /// Whether symbols are exported.
    pub include_symbols: bool,
    /// Whether references are exported.
    pub include_references: bool,
    /// Whether calls are exported.
    pub include_calls: bool,
    /// Whether JSON is written without whitespace.
    pub minify: bool,
    /// Restrictions for DOT.
    pub filters: ExportFilters,
    /// Whether collision groups are exported.
    pub include_collisions: bool,
    /// The field collisions are grouped on.
    pub collisions_field: CollisionField,
}

/// What a configuration with the defaults and format `f` holds.
pub open spec fn is_default_config(c: ExportConfig, f: ExportFormat) -> bool {
    &&& c.format == f
    &&& c.include_symbols
    &&& c.include_references
    &&& c.include_calls
    &&& !c.minify
    &&& c.filters.file is None
    &&& c.filters.symbol is None
    &&& c.filters.kind is None
    &&& c.filters.max_depth is None
    &&& !c.filters.cluster
    &&& !c.include_collisions
    &&& c.collisions_field == CollisionField::Fqn
}

impl Default for ExportConfig {
    /// JSON with symbols, references and calls, pretty-printed, no filters,
    /// no collisions.
    fn default() -> (r: Self)
        ensures
            is_default_config(r, ExportFormat::Json),
    {
        ExportConfig {
            format: ExportFormat::Json,
            include_symbols: true,
            include_references: true,
            include_calls: true,
            minify: false,
            filters: ExportFilters::default(),
            include_collisions: false,
            collisions_field: CollisionField::Fqn,
        }
    }
}

impl ExportConfig {
    /// The default configuration with format `format`.
    pub fn new(format: ExportFormat) -> (r: Self)
        ensures
            is_default_config(r, format),
    {
        let mut c = ExportConfig::default();
        c.format = format;
        c
    }

    /// The configuration with symbols included or not.
    pub fn with_symbols(self, enabled: bool) -> (r: Self)
        ensures
            r == (ExportConfig { include_symbols: enabled, ..self }),
    {
        let mut c = self;
        c.include_symbols = enabled;
        c
    }

    /// The configuration with references included or not.
    pub fn with_references(self, enabled: bool) -> (r: Self)
        ensures
            r == (ExportConfig { include_references: enabled, ..self }),
    {
        let mut c = self;
        c.include_references = enabled;
        c
    }

    /// The configuration with calls included or not.
    pub fn with_calls(self, enabled: bool) -> (r: Self)
        ensures
            r == (ExportConfig { include_calls: enabled, ..self }),
    {
        let mut c = self;
        c.include_calls = enabled;
        c
    }

    /// The configuration with JSON minified or not.
    pub fn with_minify(self, minify: bool) -> (r: Self)
        ensures
            r == (ExportConfig { minify: minify, ..self }),
    {
        let mut c = self;
        c.minify = minify;
        c
    }
}

/// A file in an export.
#[derive(Debug, Clone)]
pub struct FileExport {
    pub path: String,
    pub hash: String,
}

/// A symbol in an export.
#[derive(Debug, Clone)]
pub struct SymbolExport {
    /// Stable symbol id.
    pub symbol_id: Option<String>,
    /// Canonical fully qualified name.
    pub canonical_fqn: Option<String>,
    /// Fully qualified name for display.
    pub display_fqn: Option<String>,
    pub name: Option<String>,
    pub kind: String,
    pub kind_normalized: Option<String>,
    /// File that defines the symbol.
    pub file: String,
    pub byte_start: usize,
    pub byte_end: usize,
    pub start_line: usize,
    pub start_col: usize,
    pub end_line: usize,
    pub end_col: usize,
}

/// A reference in an export.
#[derive(Debug, Clone)]
pub struct ReferenceExport {
    pub file: String,
    pub referenced_symbol: String,
    /// Stable id of the referenced symbol.
    pub target_symbol_id: Option<String>,
    pub byte_start: usize,
    pub byte_end: usize,
    pub start_line: usize,
    pub start_col: usize,
    pub end_line: usize,
    pub end_col: usize,
}

/// A call in an export.
#[derive(Debug, Clone)]
pub struct CallExport {
    pub file: String,
    pub caller: String,
    pub callee: String,
    /// Stable id of the caller.
    pub caller_symbol_id: Option<String>,
    /// Stable id of the callee.
    pub callee_symbol_id: Option<String>,
    pub byte_start: usize,
    pub byte_end: usize,
    pub start_line: usize,
    pub start_col: usize,
    pub end_line: usize,
    pub end_col: usize,
}

/// One symbol among those that share a name.
#[derive(Debug, Clone)]
pub struct CollisionCandidateExport {
    pub entity_id: i64,
    pub symbol_id: Option<String>,
    pub canonical_fqn: Option<String>,
    pub display_fqn: Option<String>,
    pub name: Option<String>,
    pub file_path: Option<String>,
}

/// A group of symbols that share the value of a field.
#[derive(Debug, Clone)]
pub struct CollisionExport {
    pub field: String,
    pub value: String,
    pub count: usize,
    pub candidates: Vec<CollisionCandidateExport>,
}

/// A whole export.
#[derive(Debug, Clone)]
pub struct GraphExport {
    /// Version of the export schema.
    pub version: String,
    pub files: Vec<FileExport>,
    pub symbols: Vec<SymbolExport>,
    pub references: Vec<ReferenceExport>,
    pub calls: Vec<CallExport>,
    pub collisions: Vec<CollisionExport>,
}

/// Lexicographic order on keys made of optional texts: at the first part
/// where they differ, the part of `a` comes first (nothing before any text).
pub open spec fn keys_lt(a: Seq<Option<Seq<char>>>, b: Seq<Option<Seq<char>>>) -> bool
    decreases a.len(),
{
    if a.len() == 0 || b.len() == 0 {
        false
    } else if a[0] != b[0] {
        opt_seq_lt(a[0], b[0])
    } else {
        keys_lt(a.drop_first(), b.drop_first())
    }
}

/// The order on keys is transitive.
pub proof fn lemma_keys_lt_transitive(a: Seq<Option<Seq<char>>>, b: Seq<Option<Seq<char>>>, c: Seq<Option<Seq<char>>>)
    requires
        keys_lt(a, b),
        keys_lt(b, c),
    ensures
        keys_lt(a, c),
    decreases a.len(),
{
    if a[0] != b[0] && b[0] != c[0] {
        lemma_opt_seq_lt_transitive(a[0], b[0], c[0]);
        if a[0] == c[0] {
            lemma_opt_seq_lt_transitive(a[0], b[0], a[0]);
            lemma_opt_seq_lt_irreflexive(a[0]);
        }
    } else if a[0] == b[0] && b[0] == c[0] {
        lemma_keys_lt_transitive(a.drop_first(), b.drop_first(), c.drop_first());
    }
}

/// No key comes before itself.
pub proof fn lemma_keys_lt_irreflexive(a: Seq<Option<Seq<char>>>)
    ensures
        !keys_lt(a, a),
    decreases a.len(),
{
    if a.len() > 0 {
        lemma_keys_lt_irreflexive(a.drop_first());
    }
}

/// Records that are written in the order of a key of optional texts.
pub trait ExportKey: Sized {
    /// The key the record is sorted by.
    spec fn sort_key(&self) -> Seq<Option<Seq<char>>>;

    /// Whether the key of `self` comes before that of `other`.
    fn key_before(&self, other: &Self) -> (r: bool)
        ensures
            r == keys_lt(self.sort_key(), other.sort_key());
}

/// Lexicographic comparison of two keys given part by part.
fn parts_before(a: &Vec<Option<String>>, b: &Vec<Option<String>>) -> (r: bool)
    requires
        a@.len() == b@.len(),
    ensures
        r == keys_lt(a@.map_values(|o: Option<String>| opt_chars(o)), b@.map_values(|o: Option<String>| opt_chars(o))),
{
    let ghost ka = a@.map_values(|o: Option<String>| opt_chars(o));
    let ghost kb = b@.map_values(|o: Option<String>| opt_chars(o));
    let mut i: usize = 0;
    assert(ka.skip(0) =~= ka && kb.skip(0) =~= kb);
    while i < a.len()
        invariant
            a@.len() == b@.len(),
            i <= a@.len(),
            ka == a@.map_values(|o: Option<String>| opt_chars(o)),
            kb == b@.map_values(|o: Option<String>| opt_chars(o)),
            keys_lt(ka, kb) == keys_lt(ka.skip(i as int), kb.skip(i as int)),
        decreases a@.len() - i,
    {
        let same = match (&a[i], &b[i]) {
            (None, None) => true,
            (Some(x), Some(y)) => str_eq(x.as_str(), y.as_str()),
            _ => false,
        };
        assert(ka.skip(i as int)[0] == ka[i as int] && kb.skip(i as int)[0] == kb[i as int]);
        if !same {
            return crate::order::opt_str_lt(&a[i], &b[i]);
        }
        assert(ka.skip(i as int).drop_first() =~= ka.skip(i + 1));
        assert(kb.skip(i as int).drop_first() =~= kb.skip(i + 1));
        i = i + 1;
    }
    false
}

/// A text as a present key part.
fn part(s: &String) -> (r: Option<String>)
    ensures
        opt_chars(r) == Some(s@),
{
    Some(s.clone())
}

/// An optional text as a key part.
fn opt_part(o: &Option<String>) -> (r: Option<String>)
    ensures
        opt_chars(r) == opt_chars(*o),
{
    match o {
        Some(s) => Some(s.clone()),
        None => None,
    }
}

impl ExportKey for FileExport {
    /// Files are sorted by path.
    open spec fn sort_key(&self) -> Seq<Option<Seq<char>>> {
        seq![Some(self.path@)]
    }

    fn key_before(&self, other: &Self) -> (r: bool) {
        let a = vec![part(&self.path)];
        let b = vec![part(&other.path)];
        proof {
            assert(a@.map_values(|o: Option<String>| opt_chars(o)) =~= self.sort_key());
            assert(b@.map_values(|o: Option<String>| opt_chars(o)) =~= other.sort_key());
        }
        parts_before(&a, &b)
    }
}

impl ExportKey for SymbolExport {
    /// Symbols are sorted by file, then name (no name first).
    open spec fn sort_key(&self) -> Seq<Option<Seq<char>>> {
        seq![Some(self.file@), opt_chars(self.name)]
    }

    fn key_before(&self, other: &Self) -> (r: bool) {
        let a = vec![part(&self.file), opt_part(&self.name)];
        let b = vec![part(&other.file), opt_part(&other.name)];
        proof {
            assert(a@.map_values(|o: Option<String>| opt_chars(o)) =~= self.sort_key());
            assert(b@.map_values(|o: Option<String>| opt_chars(o)) =~= other.sort_key());
        }
        parts_before(&a, &b)
    }
}

impl ExportKey for ReferenceExport {
    /// References are sorted by file, then referenced symbol.
    open spec fn sort_key(&self) -> Seq<Option<Seq<char>>> {
        seq![Some(self.file@), Some(self.referenced_symbol@)]
    }

    fn key_before(&self, other: &Self) -> (r: bool) {
        let a = vec![part(&self.file), part(&self.referenced_symbol)];
        let b = vec![part(&other.file), part(&other.referenced_symbol)];
        proof {
            assert(a@.map_values(|o: Option<String>| opt_chars(o)) =~= self.sort_key());
            assert(b@.map_values(|o: Option<String>| opt_chars(o)) =~= other.sort_key());
        }
        parts_before(&a, &b)
    }
}

impl ExportKey for CallExport {
    /// Calls are sorted by file, then caller, then callee.
    open spec fn sort_key(&self) -> Seq<Option<Seq<char>>> {
        seq![Some(self.file@), Some(self.caller@), Some(self.callee@)]
    }

    fn key_before(&self, other: &Self) -> (r: bool) {
        let a = vec![part(&self.file), part(&self.caller), part(&self.callee)];
        let b = vec![part(&other.file), part(&other.caller), part(&other.callee)];
        proof {
            assert(a@.map_values(|o: Option<String>| opt_chars(o)) =~= self.sort_key());
            assert(b@.map_values(|o: Option<String>| opt_chars(o)) =~= other.sort_key());
        }
        parts_before(&a, &b)
    }
}

/// Sorted by key: no record comes before one that precedes it.
pub open spec fn sorted_by_key<T: ExportKey>(s: Seq<T>) -> bool {
    forall|i: int, j: int| 0 <= i < j < s.len() ==> !keys_lt(#[trigger] s[j].sort_key(), #[trigger] s[i].sort_key())
}

/// Inserting an element anywhere adds it to the multiset of elements.
proof fn lemma_insert_multiset<A>(s: Seq<A>, i: int, x: A)
    requires
        0 <= i <= s.len(),
    ensures
        s.insert(i, x).to_multiset() == s.to_multiset().insert(x),
{
    broadcast use vstd::seq_lib::group_to_multiset_ensures;
    let t = s.insert(i, x);
    assert(t.remove(i) =~= s);
    assert(t[i] == x);
    assert(t.contains(x));
    assert(t.to_multiset() =~= t.to_multiset().remove(x).insert(x));
}

/// The order of records by key, as a value.
pub open spec fn key_order<T: ExportKey>() -> spec_fn(T, T) -> bool {
    |a: T, b: T| keys_lt(a.sort_key(), b.sort_key())
}

/// Sorts records by key, keeping records with equal keys in the order
/// they came (a stable insertion sort).
pub fn sort_records<T: ExportKey>(v: Vec<T>) -> (r: Vec<T>)
    ensures
        sorted_by_key(r@),
        r@.to_multiset() == v@.to_multiset(),
        r@ == stable_sorted(v@, key_order::<T>()),
{
    broadcast use vstd::seq_lib::group_to_multiset_ensures;
    let mut v = v;
    let ghost orig = v@;
    let ghost n = v@.len();
    let mut out: Vec<T> = Vec::new();
    assert(out@ =~= orig.take(0));
    assert(orig.skip(0) =~= orig);
    while v.len() > 0
        invariant
            v@.len() <= n,
            orig.len() == n,
            v@ == orig.skip(n - v@.len()),
            sorted_by_key(out@),
            out@.to_multiset() == orig.take(n - v@.len()).to_multiset(),
            out@ == stable_sorted(orig.take(n - v@.len()), key_order::<T>()),
        decreases v@.len(),
    {
        let ghost done = n - v@.len();
        let ghost vv = v@;
        let x = v.remove(0);
        proof {
            assert(vv[0] == x);
            assert(orig[done] == x);
            assert(v@ =~= orig.skip(done + 1));
            assert(orig.take(done + 1) =~= orig.take(done).push(x));
        }
        let mut i: usize = 0;
        while i < out.len() && !x.key_before(&out[i])
            invariant
                i <= out@.len(),
                forall|a: int| 0 <= a < i ==> !keys_lt(x.sort_key(), #[trigger] out@[a].sort_key()),
            decreases out@.len() - i,
        {
            i = i + 1;
        }
        let ghost before = out@;
        let ghost xk = x.sort_key();
        let ghost xx = x;
        out.insert(i, x);
        proof {
            let now = out@;
            assert(now =~= before.insert(i as int, xx));
            lemma_insert_multiset(before, i as int, xx);
            vstd::seq_lib::to_multiset_build(orig.take(done), xx);
            lemma_insert_pos(before, xx, key_order::<T>(), i as int);
            lemma_stable_sorted_step(orig, done, key_order::<T>());
            assert forall|a: int, b: int| 0 <= a < b < now.len() implies !keys_lt(#[trigger] now[b].sort_key(), #[trigger] now[a].sort_key()) by {
                if b < i {
                    assert(now[a] == before[a] && now[b] == before[b]);
                } else if b == i {
                    assert(now[a] == before[a]);
                } else if a < i {
                    assert(now[a] == before[a] && now[b] == before[b - 1]);
                } else if a == i {
                    assert(now[b] == before[b - 1]);
                    assert(keys_lt(xk, before[i as int].sort_key()));
                    if keys_lt(before[b - 1].sort_key(), xk) {
                        lemma_keys_lt_transitive(before[b - 1].sort_key(), xk, before[i as int].sort_key());
                        if b - 1 == i {
                            lemma_keys_lt_irreflexive(before[i as int].sort_key());
                        }
                    }
                } else {
                    assert(now[a] == before[a - 1] && now[b] == before[b - 1]);
                }
            }
        }
    }
    assert(orig.take(n as int) =~= orig);
    out
}

/// The name of a referenced symbol, read from a reference entity's name
/// `ref to <symbol>`; empty when the name has another form.
pub open spec fn referenced_name(entity_name: Seq<char>) -> Seq<char> {
    if entity_name.len() >= 7 && entity_name.take(7) == "ref to "@ { entity_name.skip(7) } else { seq![] }
}

/// The name of the symbol a reference entity points at: what follows
/// `ref to ` in its name, or nothing.
pub fn referenced_symbol_name(entity_name: &str) -> (r: String)
    ensures
        r@ == referenced_name(entity_name@),
{
    let v = chars_of(entity_name);
    proof {
        reveal_strlit("ref to ");
    }
    if starts_with_lit(v.as_slice(), "ref to ") {
        assert("ref to "@.len() == 7);
        let r = string_from_range(v.as_slice(), 7, v.len());
        assert(r@ =~= entity_name@.skip(7));
        r
    } else {
        String::new()
    }
}

/// The version of the export schema.
pub open spec fn export_version() -> Seq<char> {
    "2.0.0"@
}

/// The records collected for an export, before they are filtered and
/// sorted.
pub struct ExportRecords {
    pub files: Vec<FileExport>,
    pub symbols: Vec<SymbolExport>,
    pub references: Vec<ReferenceExport>,
    pub calls: Vec<CallExport>,
    pub collisions: Vec<CollisionExport>,
}

/// What an export holds of records: the kinds the configuration includes
/// (files always), each sorted by its key and with the records collected,
/// and collision groups as collected when they are included.
pub open spec fn export_holds(c: ExportConfig, recs: ExportRecords, e: GraphExport) -> bool {
    &&& e.version@ == export_version()
    &&& sorted_by_key(e.files@) && e.files@.to_multiset() == recs.files@.to_multiset()
    &&& if c.include_symbols {
        sorted_by_key(e.symbols@) && e.symbols@.to_multiset() == recs.symbols@.to_multiset()
    } else {
        e.symbols@.len() == 0
    }
    &&& if c.include_references {
        sorted_by_key(e.references@) && e.references@.to_multiset() == recs.references@.to_multiset()
    } else {
        e.references@.len() == 0
    }
    &&& if c.include_calls {
        sorted_by_key(e.calls@) && e.calls@.to_multiset() == recs.calls@.to_multiset()
    } else {
        e.calls@.len() == 0
    }
    &&& if c.include_collisions { e.collisions@ == recs.collisions@ } else { e.collisions@.len() == 0 }
}

/// The export of the collected records under configuration `config`:
/// files always, symbols, references, calls and collision groups as the
/// configuration includes them, each kind sorted by its key.
pub fn assemble_export(config: &ExportConfig, recs: ExportRecords) -> (r: GraphExport)
    ensures
        export_holds(*config, recs, r),
{
    let ghost g = recs;
    let ExportRecords { files, symbols, references, calls, collisions } = recs;
    let files = sort_records(files);
    let symbols = if config.include_symbols { sort_records(symbols) } else { Vec::new() };
    let references = if config.include_references { sort_records(references) } else { Vec::new() };
    let calls = if config.include_calls { sort_records(calls) } else { Vec::new() };
    let collisions = if config.include_collisions { collisions } else { Vec::new() };
    let version = "2.0.0".to_owned();
    GraphExport { version, files, symbols, references, calls, collisions }
}

/// An export with nothing in it.
pub fn empty_export() -> (r: GraphExport)
    ensures
        r.version@ == export_version(),
        r.files@.len() == 0 && r.symbols@.len() == 0 && r.references@.len() == 0,
        r.calls@.len() == 0 && r.collisions@.len() == 0,
{
    GraphExport {
        version: "2.0.0".to_owned(),
        files: Vec::new(),
        symbols: Vec::new(),
        references: Vec::new(),
        calls: Vec::new(),
        collisions: Vec::new(),
    }
}

/// What an export of a configuration produces.
#[derive(Debug, Clone)]
pub enum ExportPlan {
    /// The JSON document of an empty export.
    EmptyJson,
    /// This text, as it is.
    Text(String),
    /// The JSON document of the whole graph.
    Json,
    /// The graph as JSON Lines.
    JsonLines,
    /// The graph as DOT.
    Dot,
    /// The graph as CSV.
    Csv,
    /// The SCIP encoding of the graph, in base64.
    ScipBase64,
    /// Failure, with this message.
    Fail(String),
}

/// The empty DOT graph.
pub open spec fn empty_dot() -> Seq<char> {
    "strict digraph call_graph {\n}\n"@
}

/// The message for a format that cannot export an empty selection.
pub open spec fn not_implemented_message(f: ExportFormat) -> Seq<char> {
    "Export format "@ + format_debug_name(f) + " not yet implemented"@
}

/// The message for an impact export without a symbol.
pub open spec fn impact_message() -> Seq<char> {
    "Impact export requires --symbol parameter. Use: magellan export --db code.db --format impact --symbol <name>"@
}

/// The name of a format as `Debug` writes it.
pub open spec fn format_debug_name(f: ExportFormat) -> Seq<char> {
    match f {
        ExportFormat::Json => "Json"@,
        ExportFormat::JsonL => "JsonL"@,
        ExportFormat::Dot => "Dot"@,
        ExportFormat::Csv => "Csv"@,
        ExportFormat::Scip => "Scip"@,
        ExportFormat::Lsif => "Lsif"@,
        ExportFormat::Impact => "Impact"@,
    }
}

fn debug_name(f: ExportFormat) -> (r: &'static str)
    ensures
        r@ == format_debug_name(f),
{
    match f {
        ExportFormat::Json => "Json",
        ExportFormat::JsonL => "JsonL",
        ExportFormat::Dot => "Dot",
        ExportFormat::Csv => "Csv",
        ExportFormat::Scip => "Scip",
        ExportFormat::Lsif => "Lsif",
        ExportFormat::Impact => "Impact",
    }
}

/// What an export under `config` produces. With neither symbols,
/// references nor calls selected: JSON gives the empty document, JSON
/// Lines the empty text, DOT the empty graph, and the other formats fail
/// as not implemented. Otherwise each format gives its export, LSIF the
/// empty text, and impact fails for want of a symbol.
pub fn export_plan(config: &ExportConfig) -> (r: ExportPlan)
    ensures
        !(config.include_symbols || config.include_references || config.include_calls) ==> match config.format {
            ExportFormat::Json => r is EmptyJson,
            ExportFormat::JsonL => r matches ExportPlan::Text(t) && t@.len() == 0,
            ExportFormat::Dot => r matches ExportPlan::Text(t) && t@ == empty_dot(),
            _ => r matches ExportPlan::Fail(m) && m@ == not_implemented_message(config.format),
        },
        (config.include_symbols || config.include_references || config.include_calls) ==> match config.format {
            ExportFormat::Json => r is Json,
            ExportFormat::JsonL => r is JsonLines,
            ExportFormat::Dot => r is Dot,
            ExportFormat::Csv => r is Csv,
            ExportFormat::Scip => r is ScipBase64,
            ExportFormat::Lsif => r matches ExportPlan::Text(t) && t@.len() == 0,
            ExportFormat::Impact => r matches ExportPlan::Fail(m) && m@ == impact_message(),
        },
{
    let has_content = config.include_symbols || config.include_references || config.include_calls;
    if !has_content {
        match config.format {
            ExportFormat::Json => ExportPlan::EmptyJson,
            ExportFormat::JsonL => ExportPlan::Text(String::new()),
            ExportFormat::Dot => {
                let t = "strict digraph call_graph {\n}\n".to_owned();
                ExportPlan::Text(t)
            },
            _ => {
                let mut m = "Export format ".to_owned();
                m.append(debug_name(config.format));
                m.append(" not yet implemented");
                ExportPlan::Fail(m)
            },
        }
    } else {
        match config.format {
            ExportFormat::Json => ExportPlan::Json,
            ExportFormat::JsonL => ExportPlan::JsonLines,
            ExportFormat::Dot => ExportPlan::Dot,
            ExportFormat::Csv => ExportPlan::Csv,
            ExportFormat::Scip => ExportPlan::ScipBase64,
            ExportFormat::Lsif => ExportPlan::Text(String::new()),
            ExportFormat::Impact => {
                let m = "Impact export requires --symbol parameter. Use: magellan export --db code.db --format impact --symbol <name>".to_owned();
                ExportPlan::Fail(m)
            },
        }
    }
}

/// The character of a 6-bit value in the standard base64 alphabet.
pub open spec fn b64_char(v: int) -> char {
    if v < 26 {
        ('A' as int + v) as char
    } else if v < 52 {
        ('a' as int + v - 26) as char
    } else if v < 62 {
        ('0' as int + v - 52) as char
    } else if v == 62 {
        '+'
    } else {
        '/'
    }
}

/// The standard base64 encoding of some bytes (RFC 4648, with padding):
/// each three bytes become four characters of six bits each; a last one
/// or two bytes become two or three characters and `=` up to four.
pub open spec fn base64_standard(bytes: Seq<u8>) -> Seq<char>
    decreases bytes.len(),
{
    if bytes.len() == 0 {
        seq![]
    } else if bytes.len() == 1 {
        let a = bytes[0] as int;
        seq![b64_char(a / 4), b64_char((a % 4) * 16), '=', '=']
    } else if bytes.len() == 2 {
        let (a, b) = (bytes[0] as int, bytes[1] as int);
        seq![b64_char(a / 4), b64_char((a % 4) * 16 + b / 16), b64_char((b % 16) * 4), '=']
    } else {
        let (a, b, c) = (bytes[0] as int, bytes[1] as int, bytes[2] as int);
        seq![b64_char(a / 4), b64_char((a % 4) * 16 + b / 16), b64_char((b % 16) * 4 + c / 64), b64_char(c % 64)]
            + base64_standard(bytes.subrange(3, bytes.len() as int))
    }
}

/// `base64::engine::general_purpose::STANDARD.encode`. Trusted: the result
/// is the standard, padded base64 encoding of the bytes that
/// `base64_standard` spells out.
#[verifier::external_body]
fn encode_base64(bytes: &[u8]) -> (r: String)
    ensures
        r@ == base64_standard(bytes@),
{
    base64::Engine::encode(&base64::engine::general_purpose::STANDARD, bytes)
}

/// The text form of a SCIP export: its bytes in standard base64.
pub fn scip_text(scip_bytes: &[u8]) -> (r: String)
    ensures
        r@ == base64_standard(scip_bytes@),
{
    encode_base64(scip_bytes)
}

} // verus!
