//! The records that storage backends hand out and take in: database
//! statistics, a symbol as queries report it, and a symbol to insert.

use vstd::prelude::*;

verus! {

/// Counts of what a database holds.
#[derive(Debug, Clone, Copy, PartialEq, Eq, Structural)]
pub struct BackendStats {
    /// Graph nodes of every kind.
    pub node_count: usize,
    /// Symbols.
    pub symbol_count: usize,
    /// Indexed files.
    pub file_count: usize,
    /// References between symbols.
    pub reference_count: usize,
    /// Control-flow blocks.
    pub cfg_block_count: usize,
}

/// A symbol as a backend query reports it.
#[derive(Debug, Clone)]
pub struct SymbolInfo {
    /// Node id.
    pub id: u64,
    /// Fully qualified name.
    pub fqn: String,
    /// Simple name.
    pub name: String,
    /// Symbol kind.
    pub kind: String,
    /// File that defines it.
    pub file_path: String,
    /// First line.
    pub start_line: u64,
    /// Last line.
    pub end_line: u64,
}

/// A symbol to insert, with its span.
#[derive(Debug, Clone)]
pub struct SymbolData {
    /// Fully qualified name.
    pub fqn: String,
    /// Simple name.
    pub name: String,
    /// Symbol kind.
    pub kind: String,
    /// File that defines it.
    pub file_path: String,
    /// Byte offset of the start.
    pub byte_start: u64,
    /// Byte offset one past the end.
    pub byte_end: u64,
    /// First line.
    pub start_line: u64,
    /// Column on the first line.
    pub start_col: u64,
    /// Last line.
    pub end_line: u64,
    /// Column on the last line.
    pub end_col: u64,
}

} // verus!
