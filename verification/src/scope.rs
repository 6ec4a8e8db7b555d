//! Lexical scopes of a source file while it is walked: the separator a
//! language writes between scope names, the stack of enclosing scopes, and
//! the kinds of symbols that are named inside them.

use vstd::prelude::*;
use vstd::string::StringExecFns;

verus! {

broadcast use vstd::string::group_string_axioms;

/// What a language writes between scope names.
#[derive(Debug, Clone, Copy, PartialEq, Eq, Structural)]
pub enum ScopeSeparator {
    /// `::` (Rust, C++).
    DoubleColon,
    /// `.` (Java, Python, JavaScript).
    Dot,
}

/// The text of a separator.
pub open spec fn separator_text(s: ScopeSeparator) -> Seq<char> {
    match s {
        ScopeSeparator::DoubleColon => "::"@,
        ScopeSeparator::Dot => "."@,
    }
}

impl ScopeSeparator {
    /// The text of the separator.
    pub fn as_str(&self) -> (r: &'static str)
        ensures
            r@ == separator_text(*self),
    {
        match self {
            ScopeSeparator::DoubleColon => "::",
            ScopeSeparator::Dot => ".",
        }
    }
}

/// Kind of a named symbol.
#[derive(Debug, Clone, Copy, PartialEq, Eq, Structural)]
pub enum SymbolKind {
    Function,
    Method,
    Class,
    Interface,
    Enum,
    Module,
    Union,
    Namespace,
    TypeAlias,
    Unknown,
}

/// The enclosing scopes, outermost first.
#[derive(Debug)]
pub struct ScopeStack {
    separator: ScopeSeparator,
    scopes: Vec<String>,
}

impl ScopeStack {
    /// The names of the enclosing scopes, outermost first.
    pub closed spec fn names(&self) -> Seq<Seq<char>> {
        self.scopes@.map_values(|s: String| s@)
    }

    /// The separator of the scopes' language.
    pub closed spec fn sep(&self) -> ScopeSeparator {
        self.separator
    }

    /// An empty stack for a language with separator `separator`.
    pub fn new(separator: ScopeSeparator) -> (r: Self)
        ensures
            r.names() == Seq::<Seq<char>>::empty(),
            r.sep() == separator,
    {
        let r = ScopeStack { separator, scopes: Vec::new() };
        assert(r.names() =~= Seq::<Seq<char>>::empty());
        r
    }

    /// Enters scope `name`.
    pub fn push(&mut self, name: &str)
        ensures
            final(self).names() == old(self).names().push(name@),
            final(self).sep() == old(self).sep(),
    {
        self.scopes.push(name.to_owned());
        assert(self.names() =~= old(self).names().push(name@));
    }

    /// Leaves the innermost scope, giving its name.
    pub fn pop(&mut self) -> (r: Option<String>)
        ensures
            old(self).names().len() == 0 ==> r is None && final(self).names() == old(self).names(),
            old(self).names().len() > 0 ==> (r matches Some(s) && s@ == old(self).names().last()
                && final(self).names() == old(self).names().drop_last()),
            final(self).sep() == old(self).sep(),
    {
        let r = self.scopes.pop();
        assert(self.names() =~= if old(self).names().len() > 0 { old(self).names().drop_last() } else { old(self).names() });
        r
    }

    /// The enclosing scopes, outermost first.
    pub fn scopes(&self) -> (r: &[String])
        ensures
            r@.map_values(|s: String| s@) == self.names(),
    {
        self.scopes.as_slice()
    }

    /// The qualified name of the current scope: the scope names joined by
    /// the separator.
    pub fn current(&self) -> (r: String)
        ensures
            r@ == join(self.names(), separator_text(self.sep())),
    {
        let mut r = String::new();
        let sep = self.separator.as_str();
        let mut i: usize = 0;
        while i < self.scopes.len()
            invariant
                i <= self.scopes@.len(),
                sep@ == separator_text(self.separator),
                r@ == join(self.names().take(i as int), sep@),
            decreases self.scopes@.len() - i,
        {
            if i > 0 {
                r.append(sep);
            }
            r.append(self.scopes[i].as_str());
            assert(self.names().take(i + 1).drop_last() =~= self.names().take(i as int));
            i = i + 1;
        }
        assert(self.names().take(self.scopes@.len() as int) =~= self.names());
        r
    }
}

/// The parts joined by `sep`.
pub open spec fn join(parts: Seq<Seq<char>>, sep: Seq<char>) -> Seq<char>
    decreases parts.len(),
{
    if parts.len() == 0 {
        seq![]
    } else if parts.len() == 1 {
        parts[0]
    } else {
        join(parts.drop_last(), sep) + sep + parts.last()
    }
}


/// The texts of `parts` joined by `sep`.
pub fn join_strings(parts: &Vec<String>, sep: &str) -> (r: String)
    ensures
        r@ == join(parts@.map_values(|s: String| s@), sep@),
{
    let ghost ps = parts@.map_values(|s: String| s@);
    let mut r = String::new();
    let mut i: usize = 0;
    while i < parts.len()
        invariant
            i <= parts@.len(),
            ps == parts@.map_values(|s: String| s@),
            r@ == join(ps.take(i as int), sep@),
        decreases parts@.len() - i,
    {
        if i > 0 {
            r.append(sep);
        }
        r.append(parts[i].as_str());
        assert(ps.take(i + 1).drop_last() =~= ps.take(i as int));
        i = i + 1;
    }
    assert(ps.take(parts@.len() as int) =~= ps);
    r
}
} // verus!
