//! Text embedding: the token counts of the hashing embedder, the texts
//! embedded for symbols, and the choices made around embedding providers.

use vstd::prelude::*;
use vstd::string::StringExecFns;
use crate::text::{chars_of, string_from_chars, push_char};
use crate::scope::{join, join_strings};
use crate::cfg_ops::utf8;

verus! {

broadcast use vstd::string::group_string_axioms;

/// Where embeddings come from.
#[derive(Debug, Clone, Copy, PartialEq, Eq, Structural)]
pub enum EmbedProvider {
    /// A local Ollama server.
    Ollama,
    /// An OpenAI-compatible HTTP service.
    OpenAi,
    /// The built-in hashing embedder.
    Hash,
}

/// Which embedder serves a configuration.
#[derive(Debug, Clone, Copy, PartialEq, Eq, Structural)]
pub enum EmbedderChoice {
    /// The hashing embedder with the given dimension.
    Hash(usize),
    /// Ollama.
    Ollama,
    /// An OpenAI-compatible service.
    OpenAi,
}

/// The embedder for a configuration: the hashing embedder of dimension 128
/// when embedding is disabled or the provider is `Hash`.
pub fn embedder_choice(provider: EmbedProvider, enabled: bool) -> (r: EmbedderChoice)
    ensures
        r == (if !enabled || provider == EmbedProvider::Hash {
            EmbedderChoice::Hash(128)
        } else if provider == EmbedProvider::Ollama {
            EmbedderChoice::Ollama
        } else {
            EmbedderChoice::OpenAi
        }),
{
    if !enabled {
        return EmbedderChoice::Hash(128);
    }
    match provider {
        EmbedProvider::Ollama => EmbedderChoice::Ollama,
        EmbedProvider::OpenAi => EmbedderChoice::OpenAi,
        EmbedProvider::Hash => EmbedderChoice::Hash(128),
    }
}

/// The dimension of a remote embedder: the one already known, else the
/// length of a probe embedding, else 768.
pub fn choose_dimension(known: usize, probed: Option<usize>) -> (r: usize)
    ensures
        r == (if known > 0 {
            known
        } else {
            match probed {
                Some(d) => d,
                None => 768,
            }
        }),
{
    if known > 0 {
        return known;
    }
    match probed {
        Some(d) => d,
        None => 768,
    }
}

/// `s` without trailing `/` characters.
pub open spec fn without_trailing_slashes(s: Seq<char>) -> Seq<char>
    decreases s.len(),
{
    if s.len() > 0 && s.last() == '/' { without_trailing_slashes(s.drop_last()) } else { s }
}

/// Connection settings of an Ollama embedding service.
#[derive(Debug, Clone)]
pub struct OllamaEmbedder {
    /// Base URL, without trailing slashes.
    pub base_url: String,
    /// Embedding model.
    pub model: String,
}

impl OllamaEmbedder {
    /// Settings for the service at `base_url` (trailing slashes dropped)
    /// with model `model`.
    pub fn new(base_url: &str, model: &str) -> (r: Self)
        ensures
            r.base_url@ == without_trailing_slashes(base_url@),
            r.model@ == model@,
    {
        OllamaEmbedder { base_url: base_url_of(base_url), model: model.to_owned() }
    }
}

/// Connection settings of an OpenAI-compatible embedding service.
#[derive(Debug, Clone)]
pub struct OpenAICompatEmbedder {
    /// Base URL, without trailing slashes.
    pub base_url: String,
    /// Embedding model.
    pub model: String,
    /// Key sent with each request.
    pub api_key: String,
}

impl OpenAICompatEmbedder {
    /// Settings for the service at `base_url` (trailing slashes dropped)
    /// with model `model` and key `api_key`.
    pub fn new(base_url: &str, model: &str, api_key: &str) -> (r: Self)
        ensures
            r.base_url@ == without_trailing_slashes(base_url@),
            r.model@ == model@,
            r.api_key@ == api_key@,
    {
        OpenAICompatEmbedder { base_url: base_url_of(base_url), model: model.to_owned(), api_key: api_key.to_owned() }
    }
}

/// A service's base URL without trailing slashes.
pub fn base_url_of(url: &str) -> (r: String)
    ensures
        r@ == without_trailing_slashes(url@),
{
    let v = chars_of(url);
    let mut n = v.len();
    assert(v@.subrange(0, n as int) =~= v@);
    while n > 0 && v[n - 1] == '/'
        invariant
            n <= v@.len(),
            without_trailing_slashes(v@.subrange(0, n as int)) == without_trailing_slashes(v@),
        decreases n,
    {
        assert(v@.subrange(0, n as int).drop_last() =~= v@.subrange(0, n - 1));
        n = n - 1;
    }
    crate::text::string_from_range(&v, 0, n)
}

/// Whether `c` is alphabetic or numeric (`char::is_alphanumeric`).
pub uninterp spec fn alphanumeric(c: char) -> bool;

/// `char::is_alphanumeric`. Trusted: the result is the Unicode property
/// `alphanumeric` names, which this crate does not spell out.
#[verifier::external_body]
fn is_alphanumeric(c: char) -> (r: bool)
    ensures
        r == alphanumeric(c),
{
    c.is_alphanumeric()
}

/// The 64-bit XXH3 hash of `bytes`.
pub uninterp spec fn xxh3_64_of(bytes: Seq<u8>) -> u64;

/// `xxhash_rust::xxh3::xxh3_64`. Trusted: the result is the XXH3 hash
/// `xxh3_64_of` names, a function of the bytes alone.
#[verifier::external_body]
fn xxh3_64(bytes: &[u8]) -> (r: u64)
    ensures
        r == xxh3_64_of(bytes@),
{
    xxhash_rust::xxh3::xxh3_64(bytes)
}

/// ASCII letters made lower case, other characters kept.
pub open spec fn ascii_lower(c: char) -> char {
    if 'A' <= c && c <= 'Z' { ((c as u8) + 32) as char } else { c }
}

/// The tokens of `v[..i]` found so far and the token being read.
pub open spec fn tok_scan(v: Seq<char>, i: int) -> (Seq<Seq<char>>, Seq<char>)
    decreases i,
{
    if i <= 0 || i > v.len() {
        (seq![], seq![])
    } else {
        let (done, cur) = tok_scan(v, i - 1);
        let c = ascii_lower(v[i - 1]);
        if alphanumeric(c) {
            (done, cur.push(c))
        } else if cur.len() > 0 {
            (done.push(cur), seq![])
        } else {
            (done, seq![])
        }
    }
}

/// The tokens of a text: its maximal runs of alphanumeric characters, ASCII
/// letters lower-cased, in order.
pub open spec fn tokens(v: Seq<char>) -> Seq<Seq<char>> {
    let (done, cur) = tok_scan(v, v.len() as int);
    if cur.len() > 0 { done.push(cur) } else { done }
}

/// The slot the token with hash `h` at position `i` adds to: the hash
/// (modulo the dimension) plus the position, modulo the dimension.
pub open spec fn hash_slot(h: u64, i: int, dim: nat) -> int {
    (i + (h as usize) as int % (dim as int)) % (dim as int)
}

/// The counts per slot of the first `n` token hashes.
pub open spec fn hash_counts(hs: Seq<u64>, n: int, dim: nat) -> Seq<int>
    decreases n,
{
    if n <= 0 || n > hs.len() {
        Seq::new(dim, |k: int| 0int)
    } else {
        let c = hash_counts(hs, n - 1, dim);
        let s = hash_slot(hs[n - 1], n - 1, dim);
        c.update(s, c[s] + 1)
    }
}

/// The XXH3 hash of each token's UTF-8 bytes.
pub open spec fn token_hashes(toks: Seq<Seq<char>>) -> Seq<u64> {
    toks.map_values(|t: Seq<char>| xxh3_64_of(utf8(t)))
}

/// The counts of the first `n` tokens per slot.
pub open spec fn slot_counts(toks: Seq<Seq<char>>, n: int, dim: nat) -> Seq<int> {
    hash_counts(token_hashes(toks), n, dim)
}

proof fn lemma_hash_counts_len(hs: Seq<u64>, n: int, dim: nat)
    requires
        dim > 0,
    ensures
        hash_counts(hs, n, dim).len() == dim,
    decreases n,
{
    if 0 < n <= hs.len() {
        lemma_hash_counts_len(hs, n - 1, dim);
        let s = hash_slot(hs[n - 1], n - 1, dim);
        assert(0 <= s < dim);
    }
}

/// The counts per slot of token hashes `hashes` (see `hash_counts`): the
/// token at position `i` with hash `h` adds one to slot
/// `(i + h % dim) % dim`.
pub fn counts_of_hashes(hashes: &Vec<u64>, dim: usize) -> (r: Vec<u64>)
    requires
        dim > 0,
    ensures
        r@.len() == dim,
        forall|k: int| 0 <= k < r@.len() ==> r@[k] as int == hash_counts(hashes@, hashes@.len() as int, dim as nat)[k],
{
    let mut counts: Vec<u64> = Vec::new();
    let mut k: usize = 0;
    while k < dim
        invariant
            k <= dim,
            counts@.len() == k,
            forall|j: int| 0 <= j < k ==> counts@[j] == 0,
        decreases dim - k,
    {
        counts.push(0);
        k = k + 1;
    }
    let mut i: usize = 0;
    while i < hashes.len()
        invariant
            dim > 0,
            i <= hashes@.len(),
            counts@.len() == dim,
            forall|j: int| 0 <= j < dim ==> counts@[j] <= i,
            forall|j: int| 0 <= j < dim ==> counts@[j] as int == hash_counts(hashes@, i as int, dim as nat)[j],
        decreases hashes@.len() - i,
    {
        let slot = (hashes[i] as usize) % dim;
        let idx = ((i as u128 + slot as u128) % (dim as u128)) as usize;
        proof {
            assert(idx as int == hash_slot(hashes@[i as int], i as int, dim as nat));
        }
        let prev_count = counts[idx];
        let ghost before = counts@;
        counts.set(idx, prev_count + 1);
        proof {
            let c = hash_counts(hashes@, i as int, dim as nat);
            lemma_hash_counts_len(hashes@, i as int, dim as nat);
            lemma_hash_counts_len(hashes@, i + 1, dim as nat);
            assert(hash_counts(hashes@, i + 1, dim as nat) == c.update(idx as int, c[idx as int] + 1));
            assert forall|j: int| 0 <= j < dim implies counts@[j] as int == hash_counts(hashes@, i + 1, dim as nat)[j] by {
                if j != idx {
                    assert(counts@[j] == before[j]);
                }
            }
        }
        i = i + 1;
    }
    counts
}

/// The built-in embedder: tokens hashed into a fixed number of slots.
#[derive(Debug, Clone, Copy)]
pub struct HashEmbedder {
    dim: usize,
}

impl HashEmbedder {
    /// The number of slots.
    pub closed spec fn dim_view(&self) -> nat {
        self.dim as nat
    }

    /// An embedder with `dim` slots.
    pub fn new(dim: usize) -> (r: Self)
        ensures
            r.dim_view() == dim,
    {
        HashEmbedder { dim }
    }

    /// The number of slots.
    pub fn dimension(&self) -> (r: usize)
        ensures
            r == self.dim_view(),
    {
        self.dim
    }

    /// The name of the embedder.
    pub fn name(&self) -> (r: &'static str)
        ensures
            r@ == "hash"@,
    {
        "hash"
    }

    /// The tokens of `text` counted per slot (see `slot_counts`); the
    /// embedding is this vector scaled to unit length.
    pub fn slot_counts(&self, text: &str) -> (r: Vec<u64>)
        requires
            self.dim_view() > 0,
        ensures
            r@.len() == self.dim_view(),
            forall|k: int| 0 <= k < r@.len() ==> r@[k] as int == slot_counts(tokens(text@), tokens(text@).len() as int, self.dim_view())[k],
    {
        let toks = split_tokens(text);
        let ghost ts = tokens(text@);
        let mut hashes: Vec<u64> = Vec::new();
        let mut i: usize = 0;
        while i < toks.len()
            invariant
                i <= toks@.len(),
                toks@.len() == ts.len(),
                forall|j: int| 0 <= j < toks@.len() ==> #[trigger] toks@[j]@ == ts[j],
                hashes@ == token_hashes(ts).take(i as int),
            decreases toks@.len() - i,
        {
            let h = xxh3_64(toks[i].as_str().as_bytes());
            proof {
                assert(toks@[i as int]@ == ts[i as int]);
                assert(h == token_hashes(ts)[i as int]);
                assert(token_hashes(ts).take(i + 1) =~= token_hashes(ts).take(i as int).push(h));
            }
            hashes.push(h);
            i = i + 1;
        }
        assert(hashes@ =~= token_hashes(ts));
        counts_of_hashes(&hashes, self.dim)
    }
}

/// The tokens of `text` (see `tokens`).
fn split_tokens(text: &str) -> (r: Vec<String>)
    ensures
        r@.len() == tokens(text@).len(),
        forall|j: int| 0 <= j < r@.len() ==> #[trigger] r@[j]@ == tokens(text@)[j],
{
    let v = chars_of(text);
    let mut done: Vec<String> = Vec::new();
    let mut cur: Vec<char> = Vec::new();
    let mut i: usize = 0;
    while i < v.len()
        invariant
            i <= v@.len(),
            v@ == text@,
            done@.len() == tok_scan(v@, i as int).0.len(),
            forall|j: int| 0 <= j < done@.len() ==> #[trigger] done@[j]@ == tok_scan(v@, i as int).0[j],
            cur@ == tok_scan(v@, i as int).1,
        decreases v@.len() - i,
    {
        let c0 = v[i];
        let c = if 'A' <= c0 && c0 <= 'Z' { ((c0 as u8) + 32) as char } else { c0 };
        assert(c == ascii_lower(v@[i as int]));
        if is_alphanumeric(c) {
            cur.push(c);
        } else if cur.len() > 0 {
            let ghost before = done@;
            done.push(string_from_chars(&cur));
            assert forall|j: int| 0 <= j < done@.len() implies #[trigger] done@[j]@ == tok_scan(v@, i + 1).0[j] by {
                if j < before.len() {
                    assert(done@[j] == before[j]);
                }
            }
            cur = Vec::new();
            assert(cur@ =~= tok_scan(v@, i + 1).1);
        } else {
            cur = Vec::new();
            assert(cur@ =~= tok_scan(v@, i + 1).1);
        }
        i = i + 1;
    }
    if cur.len() > 0 {
        let ghost before = done@;
        done.push(string_from_chars(&cur));
        assert forall|j: int| 0 <= j < done@.len() implies #[trigger] done@[j]@ == tokens(text@)[j] by {
            if j < before.len() {
                assert(done@[j] == before[j]);
            }
        }
    }
    done
}

/// The text embedded for a symbol fact: `Symbol`, its name when it has
/// one, its file and its kind, separated by spaces.
pub fn symbol_fact_embed_text(name: &Option<String>, file_path: &str, kind_normalized: &str) -> (r: String)
    ensures
        r@ == join((match name {
            Some(n) => seq!["Symbol"@, n@],
            None => seq!["Symbol"@],
        }) + seq![file_path@, kind_normalized@], " "@),
{
    let mut parts: Vec<String> = Vec::new();
    parts.push("Symbol".to_owned());
    if let Some(n) = name {
        parts.push(n.clone());
    }
    parts.push(file_path.to_owned());
    parts.push(kind_normalized.to_owned());
    let ghost expected = (match name {
        Some(n) => seq!["Symbol"@, n@],
        None => seq!["Symbol"@],
    }) + seq![file_path@, kind_normalized@];
    assert(parts@.map_values(|s: String| s@) =~= expected);
    join_strings(&parts, " ")
}

/// The text embedded for a graph entity: its kind and name, then the values
/// of its `fqn`, `canonical_fqn`, `display_fqn`, `file_path`,
/// `kind_normalized` and `language` fields that are strings, separated by
/// spaces. `fields` holds those values in that order.
pub fn symbol_embed_text(kind: &str, name: &str, fields: &Vec<Option<String>>) -> (r: String)
    ensures
        r@ == join(seq![kind@, name@] + present(fields@), " "@),
{
    let mut parts: Vec<String> = Vec::new();
    parts.push(kind.to_owned());
    parts.push(name.to_owned());
    let mut i: usize = 0;
    while i < fields.len()
        invariant
            i <= fields@.len(),
            parts@.map_values(|s: String| s@) == seq![kind@, name@] + present(fields@.take(i as int)),
        decreases fields@.len() - i,
    {
        let ghost before = parts@.map_values(|s: String| s@);
        assert(fields@.take(i + 1).drop_last() =~= fields@.take(i as int));
        if let Some(v) = &fields[i] {
            parts.push(v.clone());
            assert(parts@.map_values(|s: String| s@) =~= before.push(v@));
        }
        i = i + 1;
    }
    assert(fields@.take(fields@.len() as int) =~= fields@);
    join_strings(&parts, " ")
}

/// The texts of the values present, in order.
pub open spec fn present(fs: Seq<Option<String>>) -> Seq<Seq<char>>
    decreases fs.len(),
{
    if fs.len() == 0 {
        seq![]
    } else {
        match fs.last() {
            Some(v) => present(fs.drop_last()).push(v@),
            None => present(fs.drop_last()),
        }
    }
}

} // verus!
