//! Verified core of a codebase indexer: syntax-tree summaries, control-flow
//! graph extraction, call-graph algorithms, naming and configuration parsing.

pub mod text;
pub mod ast_node;
pub mod syntax;
pub mod ast_extractor;
pub mod cfg_model;
pub mod cfg_scan;
pub mod cfg_edges;
pub mod cfg_laws;
pub mod cfg_extractor;
pub mod crate_name;
pub mod scope;
pub mod canonical_fqn;
pub mod cache;
pub mod cfg_ops;
pub mod embed;
pub mod id_tables;
pub mod call_graph;
pub mod scc;
pub mod order;
pub mod algorithms;
pub mod candidate_fact;
pub mod export;
pub mod call_ops;
pub mod ast_ops;
pub mod db_compat;
pub mod execution_log;
pub mod paths;
pub mod backend;
