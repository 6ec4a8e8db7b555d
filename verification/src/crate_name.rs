//! Crate name detection: the `[package]` name of a `Cargo.toml`, with the
//! project directory's name and then `unknown` as fallbacks.

use vstd::prelude::*;
use crate::text::{chars_of, trim_bounds, trim, trim_start, index_of, find_char, chars_range, range_eq,
    starts_with_lit, string_from_range, lemma_index_of, trim_start_bound};

verus! {

broadcast use vstd::string::group_string_axioms;

/// The value quoted after the first `=` of a key-value line: the text between
/// the opening quote (`"` or `'`, the first character after the `=` and any
/// white space) and the next matching quote.
pub open spec fn spec_quoted_value(v: Seq<char>) -> Option<Seq<char>> {
    match index_of(v, '=', 0) {
        None => None,
        Some(e) => {
            let t = trim_start(v.subrange(e + 1, v.len() as int));
            if t.len() == 0 || (t[0] != '"' && t[0] != '\'') {
                None
            } else {
                match index_of(t, t[0], 1) {
                    Some(k) => Some(t.subrange(1, k)),
                    None => None,
                }
            }
        },
    }
}

fn quoted_value_of(v: &[char]) -> (r: Option<String>)
    ensures
        match r {
            Some(s) => spec_quoted_value(v@) == Some(s@),
            None => spec_quoted_value(v@) is None,
        },
{
    let e = match find_char(v, '=', 0) {
        Some(e) => e,
        None => return None,
    };
    let n = v.len();
    assert(e < n);
    let a = trim_start_bound(v, e + 1, n);
    let t = chars_range(v, a, n);
    if t.len() == 0 {
        return None;
    }
    let q = t[0];
    if q != '"' && q != '\'' {
        return None;
    }
    proof {
        lemma_index_of(t@, q, 1);
    }
    match find_char(&t, q, 1) {
        Some(k) => Some(string_from_range(&t, 1, k)),
        None => None,
    }
}

/// The quoted value of a key-value line: `name = "my-crate"` gives
/// `my-crate`; a line with no `=`, no opening quote or no closing quote
/// gives none.
pub fn extract_quoted_value(line: &str) -> (r: Option<String>)
    ensures
        match r {
            Some(s) => spec_quoted_value(line@) == Some(s@),
            None => spec_quoted_value(line@) is None,
        },
{
    let v = chars_of(line);
    quoted_value_of(&v)
}

/// End of the line that starts at `start`: the next line feed, or the end.
pub open spec fn line_end(v: Seq<char>, start: int) -> int {
    match index_of(v, '\n', start) {
        Some(e) => e,
        None => v.len() as int,
    }
}

/// Whether a trimmed line is a `name = ...` entry.
pub open spec fn is_name_line(t: Seq<char>) -> bool {
    &&& 4 <= t.len()
    &&& t.subrange(0, 4) == "name"@
    &&& index_of(t, '=', 0) is Some
}

/// The `[package]` name found scanning the lines of `v` from position
/// `start`, `in_pkg` telling whether the scan is inside `[package]`: the
/// quoted value of the first `name = ...` line inside `[package]`, and none
/// once another section starts.
pub open spec fn scan_package_name(v: Seq<char>, start: int, in_pkg: bool) -> Option<Seq<char>>
    decreases v.len() - start,
{
    if start < 0 || start > v.len() {
        None
    } else {
        let e = line_end(v, start);
        let t = trim(v.subrange(start, e));
        let more = e < v.len();
        if t == "[package]"@ {
            if more && start < e + 1 { scan_package_name(v, e + 1, true) } else { None }
        } else if t.len() > 0 && t[0] == '[' {
            if in_pkg {
                None
            } else if more && start < e + 1 {
                scan_package_name(v, e + 1, in_pkg)
            } else {
                None
            }
        } else if in_pkg && is_name_line(t) {
            spec_quoted_value(t)
        } else if more && start < e + 1 {
            scan_package_name(v, e + 1, in_pkg)
        } else {
            None
        }
    }
}

/// The `[package]` name of a `Cargo.toml` (see `scan_package_name`).
pub fn parse_cargo_toml_name(content: &str) -> (r: Option<String>)
    ensures
        match r {
            Some(s) => scan_package_name(content@, 0, false) == Some(s@),
            None => scan_package_name(content@, 0, false) is None,
        },
{
    proof {
        reveal_strlit("name");
    }
    let v = chars_of(content);
    let mut start: usize = 0;
    let mut in_pkg = false;
    loop
        invariant
            start <= v@.len(),
            v@ == content@,
            scan_package_name(v@, start as int, in_pkg) == scan_package_name(v@, 0, false),
        decreases v@.len() - start,
    {
        let e = match find_char(&v, '\n', start) {
            Some(e) => e,
            None => v.len(),
        };
        proof {
            lemma_index_of(v@, '\n', start as int);
        }
        let (a, b) = trim_bounds(&v, start, e);
        let more = e < v.len();
        if range_eq(&v, a, b, "[package]") {
            if more {
                start = e + 1;
                in_pkg = true;
            } else {
                return None;
            }
        } else if b > a && v[a] == '[' {
            if in_pkg || !more {
                return None;
            }
            start = e + 1;
        } else {
            let t = chars_range(&v, a, b);
            proof {
                reveal_strlit("name");
            }
            let sw = starts_with_lit(&t, "name");
            let has_eq = find_char(&t, '=', 0).is_some();
            let is_name = sw && has_eq;
            assert(sw ==> 4 <= t@.len());
            assert(sw ==> t@.subrange(0, 4) == "name"@);
            assert(has_eq ==> index_of(t@, '=', 0) is Some);
            if in_pkg && is_name {
                assert(t@ == trim(v@.subrange(start as int, line_end(v@, start as int))));
                assert(is_name_line(t@));
                assert(scan_package_name(v@, start as int, in_pkg) == spec_quoted_value(t@));
                return quoted_value_of(&t);
            }
            if !more {
                return None;
            }
            start = e + 1;
        }
    }
}

/// Whether a line of `v` starts at `s`: at the beginning or after a line
/// feed.
pub open spec fn line_start(v: Seq<char>, s: int) -> bool {
    s == 0 || (0 < s <= v.len() && v[s - 1] == '\n')
}

/// The line of `v` that starts at `s`, trimmed.
pub open spec fn trimmed_line(v: Seq<char>, s: int) -> Seq<char> {
    trim(v.subrange(s, line_end(v, s)))
}

proof fn lemma_line_end(v: Seq<char>, s: int)
    requires
        0 <= s <= v.len(),
    ensures
        s <= line_end(v, s) <= v.len(),
        line_end(v, s) < v.len() ==> v[line_end(v, s)] == '\n',
        forall|k: int| s <= k < line_end(v, s) ==> v[k] != '\n',
{
    lemma_index_of(v, '\n', s);
}

/// The line after a line that starts before `p` starts at or before `p`.
proof fn lemma_next_line(v: Seq<char>, s: int, p: int)
    requires
        0 <= s < p <= v.len(),
        line_start(v, p),
    ensures
        s <= line_end(v, s),
        line_end(v, s) < v.len(),
        line_end(v, s) + 1 <= p,
        line_start(v, line_end(v, s) + 1),
{
    lemma_line_end(v, s);
    assert(v[p - 1] == '\n');
}

/// Outside `[package]`, the scan passes over lines that are not
/// `[package]`.
proof fn lemma_skip_outside(v: Seq<char>, s: int, p: int)
    requires
        0 <= s <= p <= v.len(),
        line_start(v, s),
        line_start(v, p),
        forall|q: int| s <= q < p && #[trigger] line_start(v, q) ==> trimmed_line(v, q) != "[package]"@,
    ensures
        scan_package_name(v, s, false) == scan_package_name(v, p, false),
    decreases p - s,
{
    if s < p {
        lemma_next_line(v, s, p);
        let e = line_end(v, s);
        assert(trimmed_line(v, s) != "[package]"@);
        lemma_skip_outside(v, e + 1, p);
    }
}

/// Inside `[package]`, the scan passes over lines that are neither section
/// headers nor `name` lines.
proof fn lemma_skip_inside(v: Seq<char>, s: int, n: int)
    requires
        0 <= s <= n <= v.len(),
        line_start(v, s),
        line_start(v, n),
        forall|q: int| s <= q < n && #[trigger] line_start(v, q) ==> !(trimmed_line(v, q).len() > 0 && trimmed_line(v, q)[0] == '[')
            && !is_name_line(trimmed_line(v, q)),
    ensures
        scan_package_name(v, s, true) == scan_package_name(v, n, true),
    decreases n - s,
{
    if s < n {
        lemma_next_line(v, s, n);
        let e = line_end(v, s);
        let t = trimmed_line(v, s);
        reveal_strlit("[package]");
        assert(t != "[package]"@) by {
            if t == "[package]"@ {
                assert(t[0] == '[');
            }
        }
        lemma_skip_inside(v, e + 1, n);
    }
}

/// Whatever sections come before it, the name of a `Cargo.toml` is the
/// quoted value of the first `name = ...` line after its first `[package]`
/// line, when no other section header comes between them.
pub proof fn lemma_package_name_found(v: Seq<char>, p: int, n: int)
    requires
        0 <= p < n <= v.len(),
        line_start(v, p),
        line_start(v, n),
        trimmed_line(v, p) == "[package]"@,
        forall|q: int| 0 <= q < p && #[trigger] line_start(v, q) ==> trimmed_line(v, q) != "[package]"@,
        forall|q: int| p < q < n && #[trigger] line_start(v, q) ==> !(trimmed_line(v, q).len() > 0 && trimmed_line(v, q)[0] == '[')
            && !is_name_line(trimmed_line(v, q)),
        is_name_line(trimmed_line(v, n)),
    ensures
        scan_package_name(v, 0, false) == spec_quoted_value(trimmed_line(v, n)),
{
    reveal_strlit("[package]");
    reveal_strlit("name");
    lemma_skip_outside(v, 0, p);
    lemma_next_line(v, p, n);
    let e = line_end(v, p);
    assert(scan_package_name(v, p, false) == scan_package_name(v, e + 1, true));
    lemma_skip_inside(v, e + 1, n);
    let t = trimmed_line(v, n);
    assert(t != "[package]"@) by {
        if t == "[package]"@ {
            assert(t.subrange(0, 4)[0] == t[0]);
        }
    }
    assert(!(t.len() > 0 && t[0] == '[')) by {
        assert(t.subrange(0, 4)[0] == t[0]);
    }
}

/// A `Cargo.toml` whose first `[package]` section ends at another section
/// header before any `name = ...` line has no name.
pub proof fn lemma_package_without_name(v: Seq<char>, p: int, h: int)
    requires
        0 <= p < h <= v.len(),
        line_start(v, p),
        line_start(v, h),
        trimmed_line(v, p) == "[package]"@,
        forall|q: int| 0 <= q < p && #[trigger] line_start(v, q) ==> trimmed_line(v, q) != "[package]"@,
        forall|q: int| p < q < h && #[trigger] line_start(v, q) ==> !(trimmed_line(v, q).len() > 0 && trimmed_line(v, q)[0] == '[')
            && !is_name_line(trimmed_line(v, q)),
        trimmed_line(v, h).len() > 0,
        trimmed_line(v, h)[0] == '[',
        trimmed_line(v, h) != "[package]"@,
    ensures
        scan_package_name(v, 0, false) is None,
{
    reveal_strlit("[package]");
    lemma_skip_outside(v, 0, p);
    lemma_next_line(v, p, h);
    let e = line_end(v, p);
    assert(scan_package_name(v, p, false) == scan_package_name(v, e + 1, true));
    lemma_skip_inside(v, e + 1, h);
}

/// The crate name from what was read of a project: the `[package]` name of
/// its `Cargo.toml` when there is one, else the name of its directory, else
/// `unknown`.
pub fn crate_name_from(cargo_toml: Option<&str>, dir_name: Option<&str>) -> (r: String)
    ensures
        r@ == (match cargo_toml {
            Some(c) if scan_package_name(c@, 0, false) is Some => scan_package_name(c@, 0, false).unwrap(),
            _ => match dir_name {
                Some(d) => d@,
                None => "unknown"@,
            },
        }),
{
    if let Some(c) = cargo_toml {
        if let Some(name) = parse_cargo_toml_name(c) {
            return name;
        }
    }
    match dir_name {
        Some(d) => d.to_owned(),
        None => "unknown".to_owned(),
    }
}

} // verus!
