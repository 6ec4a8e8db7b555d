# magellan

The verified core of a codebase indexer. Source files are parsed with
tree-sitter; the library turns the syntax trees into AST summaries and
control-flow graphs, names symbols, and answers call-graph questions
(reachability, dead code, slices, strongly connected components and the
condensation, bounded path enumeration) over an index held as plain values.
Every function in `src/` is checked by Verus against its `requires`/`ensures`
contract.

Layout:

- `src/` — the library, one module per concern:
  - syntax trees and AST summaries: `syntax`, `ast_node`, `ast_extractor`,
    `ast_ops`;
  - control flow: `cfg_model`, `cfg_scan`, `cfg_edges` (graphs with edges),
    `cfg_laws` (what every extracted graph satisfies), `cfg_extractor`
    (block summaries), `cfg_ops` (`#[cfg]` conditions, stored edge names,
    block hashes);
  - names: `text`, `scope`, `canonical_fqn`, `crate_name`;
  - the index and its algorithms: `call_graph`, `scc`, `order`,
    `algorithms`, `paths`, `call_ops`;
  - records and plans: `cache`, `embed`, `export`, `candidate_fact`,
    `db_compat`, `execution_log`, `backend`.
- `tests/` — ordinary Rust tests against the compiled library.
- `app/` — the code Verus does not see: SQLite storage, HTTP embedding
  services, file-system lookups, locking and floating-point arithmetic,
  each calling into the library for its decisions.

Calls into other crates (tree-sitter, ahash, sha2, serde_json, xxhash-rust,
base64, uuid, and a few std functions) go through small trusted wrappers whose
contracts say what those crates document; each is marked
`#[verifier::external_body]` and explained where it is declared.
