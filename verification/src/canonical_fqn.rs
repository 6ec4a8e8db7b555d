//! Fully qualified names of symbols: the canonical form, unique within a
//! crate (crate, file, kind and name), and the display form a reader
//! expects (crate, enclosing scopes and name, in the language's notation).

use vstd::prelude::*;
use vstd::string::StringExecFns;
use crate::scope::{ScopeSeparator, ScopeStack, SymbolKind, separator_text, join, join_strings};
use crate::text::{chars_of, starts_with_lit, string_from_range, index_of, find_char, range_eq, lemma_index_of};

verus! {

broadcast use vstd::string::group_string_axioms;

/// The name a symbol kind takes in a canonical name.
pub open spec fn kind_name(k: SymbolKind) -> Seq<char> {
    match k {
        SymbolKind::Function => "Function"@,
        SymbolKind::Method => "Method"@,
        SymbolKind::Class => "Struct"@,
        SymbolKind::Interface => "Trait"@,
        SymbolKind::Enum => "Enum"@,
        SymbolKind::Module => "Module"@,
        SymbolKind::Union => "Union"@,
        SymbolKind::Namespace => "Namespace"@,
        SymbolKind::TypeAlias => "TypeAlias"@,
        SymbolKind::Unknown => "Unknown"@,
    }
}

/// A scope name as it appears in a display name: without a leading `impl `.
pub open spec fn display_scope(s: Seq<char>) -> Seq<char> {
    if 5 <= s.len() && s.subrange(0, 5) == "impl "@ { s.subrange(5, s.len() as int) } else { s }
}

/// Builds the names of the symbols of one file.
#[derive(Debug, Clone)]
pub struct FqnBuilder {
    pub(crate) crate_name: String,
    pub(crate) file_path: String,
    pub(crate) scope_separator: ScopeSeparator,
}

impl FqnBuilder {
    /// The crate the file belongs to.
    pub closed spec fn crate_text(&self) -> Seq<char> {
        self.crate_name@
    }

    /// The file's path.
    pub closed spec fn path_text(&self) -> Seq<char> {
        self.file_path@
    }

    /// The separator of the file's language.
    pub closed spec fn sep(&self) -> ScopeSeparator {
        self.scope_separator
    }

    /// A builder for file `file_path` of crate `crate_name`.
    pub fn new(crate_name: String, file_path: String, scope_separator: ScopeSeparator) -> (r: Self)
        ensures
            r.crate_text() == crate_name@,
            r.path_text() == file_path@,
            r.sep() == scope_separator,
    {
        FqnBuilder { crate_name, file_path, scope_separator }
    }

    /// The canonical name: `crate::file::Kind name`. Scopes play no part.
    pub fn canonical(&self, _scope_stack: &ScopeStack, symbol_kind: SymbolKind, symbol_name: &str) -> (r: String)
        ensures
            r@ == self.crate_text() + "::"@ + self.path_text() + "::"@ + kind_name(symbol_kind) + " "@ + symbol_name@,
    {
        let mut r = self.crate_name.clone();
        r.append("::");
        r.append(self.file_path.as_str());
        r.append("::");
        r.append(self.kind_string(symbol_kind).as_str());
        r.append(" ");
        r.append(symbol_name);
        r
    }

    /// The display name: the crate, the enclosing scopes (without a leading
    /// `impl `) and the name, joined by the language's separator.
    pub fn display(&self, scope_stack: &ScopeStack, _symbol_kind: SymbolKind, symbol_name: &str) -> (r: String)
        ensures
            r@ == join(seq![self.crate_text()] + scope_stack.names().map_values(|s: Seq<char>| display_scope(s))
                + seq![symbol_name@], separator_text(self.sep())),
    {
        proof {
            reveal_strlit("impl ");
        }
        let sep = self.scope_separator.as_str();
        let scopes = scope_stack.scopes();
        let mut parts: Vec<String> = Vec::new();
        parts.push(self.crate_name.clone());
        let ghost shown = scope_stack.names().map_values(|s: Seq<char>| display_scope(s));
        let mut i: usize = 0;
        while i < scopes.len()
            invariant
                i <= scopes@.len(),
                scopes@.map_values(|s: String| s@) == scope_stack.names(),
                shown == scope_stack.names().map_values(|s: Seq<char>| display_scope(s)),
                "impl "@.len() == 5,
                parts@.map_values(|s: String| s@) == seq![self.crate_text()] + shown.take(i as int),
            decreases scopes@.len() - i,
        {
            let v = chars_of(scopes[i].as_str());
            let clean = if starts_with_lit(&v, "impl ") {
                string_from_range(&v, 5, v.len())
            } else {
                scopes[i].clone()
            };
            assert(scope_stack.names()[i as int] == scopes@[i as int]@);
            assert(clean@ == display_scope(scopes@[i as int]@));
            assert(shown[i as int] == display_scope(scope_stack.names()[i as int]));
            let ghost before = parts@.map_values(|s: String| s@);
            let ghost cv = clean@;
            parts.push(clean);
            assert(parts@.map_values(|s: String| s@) =~= before.push(cv));
            assert(seq![self.crate_text()] + shown.take(i + 1) =~= (seq![self.crate_text()] + shown.take(i as int)).push(shown[i as int]));
            i = i + 1;
        }
        parts.push(symbol_name.to_owned());
        assert(shown.take(scopes@.len() as int) =~= shown);
        assert(parts@.map_values(|s: String| s@) =~= seq![self.crate_text()] + shown + seq![symbol_name@]);
        join_strings(&parts, sep)
    }

    /// The file path in normal form (see `normalize_path`), or why it has
    /// none.
    pub fn normalized_file_path(&self) -> (r: Result<String, String>)
        ensures
            match r {
                Ok(p) => spec_normalize_path(self.path_text()) == Some(p@),
                Err(e) => spec_normalize_path(self.path_text()) is None
                    && e@ == "Path normalization failed: empty path"@,
            },
            r matches Ok(p) ==> p@.len() > 0 && (p@[0] == '/' <==> self.path_text()[0] == '/'),
    {
        proof {
            if self.path_text().len() > 0 {
                lemma_normalize_keeps_absolute(self.path_text());
            }
        }
        match normalize_path(self.file_path.as_str()) {
            Ok(p) => Ok(p),
            Err(e) => {
                let mut m = "Path normalization failed: ".to_owned();
                m.append(e.as_str());
                proof {
                    reveal_strlit("Path normalization failed: ");
                    reveal_strlit("empty path");
                    reveal_strlit("Path normalization failed: empty path");
                    assert(m@ =~= "Path normalization failed: empty path"@);
                }
                Err(m)
            },
        }
    }

    fn kind_string(&self, kind: SymbolKind) -> (r: String)
        ensures
            r@ == kind_name(kind),
    {
        match kind {
            SymbolKind::Function => "Function",
            SymbolKind::Method => "Method",
            SymbolKind::Class => "Struct",
            SymbolKind::Interface => "Trait",
            SymbolKind::Enum => "Enum",
            SymbolKind::Module => "Module",
            SymbolKind::Union => "Union",
            SymbolKind::Namespace => "Namespace",
            SymbolKind::TypeAlias => "TypeAlias",
            SymbolKind::Unknown => "Unknown",
        }.to_owned()
    }
}

/// The path components kept so far after one more component `c`: empty and
/// `.` components are dropped, `..` removes the component before it (when
/// there is one that is not itself `..`).
pub open spec fn norm_step(stack: Seq<Seq<char>>, c: Seq<char>) -> Seq<Seq<char>> {
    if c.len() == 0 || c == "."@ {
        stack
    } else if c == ".."@ && stack.len() > 0 && stack.last() != ".."@ {
        stack.drop_last()
    } else {
        stack.push(c)
    }
}

/// End of the path component that starts at `start`.
pub open spec fn component_end(s: Seq<char>, start: int) -> int {
    match index_of(s, '/', start) {
        Some(e) => e,
        None => s.len() as int,
    }
}

/// The components kept after those of `s` from position `start` on.
pub open spec fn norm_from(s: Seq<char>, start: int, stack: Seq<Seq<char>>) -> Seq<Seq<char>>
    decreases s.len() - start,
{
    if start < 0 || start > s.len() {
        stack
    } else {
        let e = component_end(s, start);
        let next = norm_step(stack, s.subrange(start, e));
        if e < s.len() && start < e + 1 { norm_from(s, e + 1, next) } else { next }
    }
}

/// The lexical normal form of a path: its components (see `norm_step`)
/// joined by `/`, after a `/` for an absolute path, `.` when nothing is
/// left of a relative one; none for an empty path.
pub open spec fn spec_normalize_path(s: Seq<char>) -> Option<Seq<char>> {
    if s.len() == 0 {
        None
    } else {
        let body = join(norm_from(s, 0, seq![]), "/"@);
        if s[0] == '/' {
            Some("/"@ + body)
        } else if body.len() == 0 {
            Some("."@)
        } else {
            Some(body)
        }
    }
}

/// The lexical normal form of a path (see `spec_normalize_path`):
/// `./src/lib.rs` gives `src/lib.rs`. The file system is not consulted.
pub fn normalize_path(path: &str) -> (r: Result<String, String>)
    ensures
        match r {
            Ok(p) => spec_normalize_path(path@) == Some(p@),
            Err(e) => spec_normalize_path(path@) is None && e@ == "empty path"@,
        },
{
    let v = chars_of(path);
    if v.len() == 0 {
        return Err("empty path".to_owned());
    }
    let mut stack: Vec<String> = Vec::new();
    let mut start: usize = 0;
    assert(stack@.map_values(|s: String| s@) =~= Seq::<Seq<char>>::empty());
    loop
        invariant_except_break
            start <= v@.len(),
            norm_from(v@, start as int, stack@.map_values(|s: String| s@)) == norm_from(v@, 0, seq![]),
        invariant
            v@ == path@,
        ensures
            stack@.map_values(|s: String| s@) == norm_from(v@, 0, seq![]),
        decreases v@.len() - start,
    {
        proof {
            reveal_strlit(".");
            reveal_strlit("..");
        }
        let e = match find_char(&v, '/', start) {
            Some(e) => e,
            None => v.len(),
        };
        proof {
            lemma_index_of(v@, '/', start as int);
        }
        let ghost before = stack@.map_values(|s: String| s@);
        let ghost c = v@.subrange(start as int, e as int);
        if e == start || range_eq(&v, start, e, ".") {
        } else if range_eq(&v, start, e, "..") && stack.len() > 0
            && !range_eq_string(&stack[stack.len() - 1], "..") {
            stack.pop();
            assert(stack@.map_values(|s: String| s@) =~= before.drop_last());
        } else {
            stack.push(string_from_range(&v, start, e));
            assert(stack@.map_values(|s: String| s@) =~= before.push(c));
        }
        assert(stack@.map_values(|s: String| s@) == norm_step(before, c));
        if e >= v.len() {
            break;
        }
        start = e + 1;
    }
    let body = join_strings(&stack, "/");
    if v[0] == '/' {
        let mut r = "/".to_owned();
        r.append(body.as_str());
        Ok(r)
    } else if body.as_str().is_empty() {
        Ok(".".to_owned())
    } else {
        Ok(body)
    }
}

fn range_eq_string(s: &String, lit: &str) -> (r: bool)
    ensures
        r == (s@ == lit@),
{
    crate::text::str_eq(s.as_str(), lit)
}

/// Path components: none empty, none `.`, none holding a `/`.
pub open spec fn plain_components(parts: Seq<Seq<char>>) -> bool {
    forall|i: int| 0 <= i < parts.len() ==> (#[trigger] parts[i]).len() > 0 && parts[i] != "."@
        && forall|k: int| 0 <= k < parts[i].len() ==> parts[i][k] != '/'
}

proof fn lemma_norm_from_plain(s: Seq<char>, start: int, stack: Seq<Seq<char>>)
    requires
        plain_components(stack),
        0 <= start,
    ensures
        plain_components(norm_from(s, start, stack)),
    decreases s.len() - start,
{
    if start <= s.len() {
        let e = component_end(s, start);
        lemma_index_of(s, '/', start);
        let c = s.subrange(start, e);
        let next = norm_step(stack, c);
        assert(plain_components(next)) by {
            if !(c.len() == 0 || c == "."@) && !(c == ".."@ && stack.len() > 0 && stack.last() != ".."@) {
                assert forall|i: int| 0 <= i < next.len() implies (#[trigger] next[i]).len() > 0 && next[i] != "."@
                    && forall|k: int| 0 <= k < next[i].len() ==> next[i][k] != '/' by {
                    if i < stack.len() {
                        assert(next[i] == stack[i]);
                    } else {
                        assert(next[i] == c);
                        assert forall|k: int| 0 <= k < c.len() implies c[k] != '/' by {
                            assert(c[k] == s[start + k]);
                        }
                    }
                }
            } else if c == ".."@ && stack.len() > 0 && stack.last() != ".."@ && !(c.len() == 0 || c == "."@) {
                assert forall|i: int| 0 <= i < next.len() implies (#[trigger] next[i]).len() > 0 && next[i] != "."@
                    && forall|k: int| 0 <= k < next[i].len() ==> next[i][k] != '/' by {
                    assert(next[i] == stack[i]);
                }
            }
        }
        if e < s.len() && start < e + 1 {
            lemma_norm_from_plain(s, e + 1, next);
        }
    }
}

proof fn lemma_join_first(parts: Seq<Seq<char>>)
    requires
        parts.len() > 0,
        parts[0].len() > 0,
    ensures
        join(parts, "/"@).len() > 0,
        join(parts, "/"@)[0] == parts[0][0],
    decreases parts.len(),
{
    if parts.len() > 1 {
        let pre = parts.drop_last();
        assert(pre[0] == parts[0]);
        lemma_join_first(pre);
    }
}

/// The components a path keeps once normalized are neither empty nor `.`,
/// and hold no `/`.
pub proof fn lemma_normalized_components(s: Seq<char>)
    ensures
        plain_components(norm_from(s, 0, seq![])),
{
    lemma_norm_from_plain(s, 0, seq![]);
}

/// Normalizing keeps a path absolute or relative: the normal form of a
/// path starts with `/` exactly when the path does.
pub proof fn lemma_normalize_keeps_absolute(s: Seq<char>)
    requires
        s.len() > 0,
    ensures
        spec_normalize_path(s) is Some,
        spec_normalize_path(s).unwrap().len() > 0,
        (spec_normalize_path(s).unwrap()[0] == '/') <==> (s[0] == '/'),
{
    reveal_strlit("/");
    reveal_strlit(".");
    let parts = norm_from(s, 0, seq![]);
    lemma_norm_from_plain(s, 0, seq![]);
    let body = join(parts, "/"@);
    if s[0] == '/' {
        assert(("/"@ + body)[0] == '/');
    } else if body.len() == 0 {
        assert("."@[0] == '.');
    } else {
        if parts.len() == 0 {
            assert(body == Seq::<char>::empty());
        }
        assert(parts[0].len() > 0);
        lemma_join_first(parts);
        assert(parts[0][0] != '/');
    }
}

} // verus!
