//! Queries over the stored AST nodes of the index: by file, by parent, by
//! kind, the roots, and the innermost node at a byte position.

use vstd::prelude::*;
use crate::ast_node::{AstNode, AstNodeWithText};
use crate::algorithms::{CodeGraph, GraphQueryError};
use crate::text::str_eq;
use crate::order::{stable_sorted, lemma_insert_pos, lemma_stable_sorted_step};

verus! {

/// A stored AST node with the file it belongs to.
#[derive(Debug, Clone)]
pub struct AstRow {
    /// The file's id, where the node was stored with one.
    pub file_id: Option<i64>,
    /// The node.
    pub node: AstNode,
}

/// The nodes of the rows that satisfy `keep`, in order.
pub open spec fn select_nodes(rows: Seq<AstRow>, keep: spec_fn(AstRow) -> bool) -> Seq<AstNode>
    decreases rows.len(),
{
    if rows.len() == 0 {
        seq![]
    } else if keep(rows.last()) {
        select_nodes(rows.drop_last(), keep).push(rows.last().node)
    } else {
        select_nodes(rows.drop_last(), keep)
    }
}

/// The id of the first file with path `p`, if any.
pub open spec fn file_id_for(index: Seq<(String, i64)>, p: Seq<char>) -> Option<i64>
    decreases index.len(),
{
    if index.len() == 0 {
        None
    } else if index[0].0@ == p {
        Some(index[0].1)
    } else {
        file_id_for(index.drop_first(), p)
    }
}

/// Whether the node's span holds byte `pos`.
pub open spec fn holds_pos(n: AstNode, pos: usize) -> bool {
    n.byte_start <= pos && pos < n.byte_end
}

/// Length of a span.
pub open spec fn span_len(n: AstNode) -> int {
    n.byte_end - n.byte_start
}

/// A node, copied.
fn copy_node(n: &AstNode) -> (r: AstNode)
    ensures
        r == *n,
{
    AstNode { id: n.id, parent_id: n.parent_id, kind: n.kind.clone(), byte_start: n.byte_start, byte_end: n.byte_end }
}

/// The nodes of the stored rows satisfying `keep`, in order.
fn select(rows: &Vec<AstRow>, Ghost(keep): Ghost<spec_fn(AstRow) -> bool>, file_id: Option<i64>, parent: Option<Option<i64>>, kind: Option<&str>) -> (r: Vec<AstNode>)
    requires
        forall|row: AstRow| #[trigger] keep(row) == (
            (file_id is Some ==> row.file_id == file_id)
            && (parent is Some ==> row.node.parent_id == parent->0)
            && (kind is Some ==> row.node.kind@ == kind->0@)),
    ensures
        r@ == select_nodes(rows@, keep),
{
    let mut out: Vec<AstNode> = Vec::new();
    let mut i: usize = 0;
    assert(rows@.take(0) =~= Seq::<AstRow>::empty());
    while i < rows.len()
        invariant
            i <= rows@.len(),
            out@ == select_nodes(rows@.take(i as int), keep),
            forall|row: AstRow| #[trigger] keep(row) == (
                (file_id is Some ==> row.file_id == file_id)
                && (parent is Some ==> row.node.parent_id == parent->0)
                && (kind is Some ==> row.node.kind@ == kind->0@)),
        decreases rows@.len() - i,
    {
        let row = &rows[i];
        let mut ok = true;
        if let Some(f) = file_id {
            if row.file_id != Some(f) {
                ok = false;
            }
        }
        if let Some(p) = parent {
            if row.node.parent_id != p {
                ok = false;
            }
        }
        if let Some(k) = kind {
            if !str_eq(row.node.kind.as_str(), k) {
                ok = false;
            }
        }
        proof {
            assert(rows@.take(i + 1).drop_last() =~= rows@.take(i as int));
            assert(rows@.take(i + 1).last() == rows@[i as int]);
            assert(ok == keep(rows@[i as int]));
        }
        if ok {
            out.push(copy_node(&row.node));
        }
        i = i + 1;
    }
    assert(rows@.take(rows@.len() as int) =~= rows@);
    out
}

/// The id of the first file with path `p`.
fn find_file_id(index: &Vec<(String, i64)>, p: &str) -> (r: Option<i64>)
    ensures
        r == file_id_for(index@, p@),
{
    let mut i: usize = 0;
    assert(index@.skip(0) =~= index@);
    while i < index.len()
        invariant
            i <= index@.len(),
            file_id_for(index@, p@) == file_id_for(index@.skip(i as int), p@),
        decreases index@.len() - i,
    {
        assert(index@.skip(i as int)[0] == index@[i as int]);
        if str_eq(index[i].0.as_str(), p) {
            return Some(index[i].1);
        }
        assert(index@.skip(i as int).drop_first() =~= index@.skip(i + 1));
        i = i + 1;
    }
    None
}

/// Rows of the file with id `id`.
pub open spec fn in_file(id: i64) -> spec_fn(AstRow) -> bool {
    |row: AstRow| row.file_id == Some(id)
}

/// Rows whose node has parent `id`.
pub open spec fn child_of(id: i64) -> spec_fn(AstRow) -> bool {
    |row: AstRow| row.node.parent_id == Some(id)
}

/// Rows whose node has kind `k`.
pub open spec fn of_kind(k: Seq<char>) -> spec_fn(AstRow) -> bool {
    |row: AstRow| row.node.kind@ == k
}

/// Rows whose node has no parent.
pub open spec fn is_root() -> spec_fn(AstRow) -> bool {
    |row: AstRow| row.node.parent_id is None
}

/// The order of nodes by where they start.
pub open spec fn start_order() -> spec_fn(AstNode, AstNode) -> bool {
    |a: AstNode, b: AstNode| a.byte_start < b.byte_start
}

/// The nodes sorted by where they start, nodes that start at the same
/// byte kept in the order they came.
fn sort_by_start(v: &Vec<AstNode>) -> (r: Vec<AstNode>)
    ensures
        r@ == stable_sorted(v@, start_order()),
        forall|i: int, j: int| 0 <= i < j < r@.len() ==> (#[trigger] r@[i]).byte_start <= (#[trigger] r@[j]).byte_start,
{
    let mut out: Vec<AstNode> = Vec::new();
    let mut k: usize = 0;
    assert(v@.take(0) =~= Seq::<AstNode>::empty());
    while k < v.len()
        invariant
            k <= v@.len(),
            out@ == stable_sorted(v@.take(k as int), start_order()),
            forall|i: int, j: int| 0 <= i < j < out@.len() ==> (#[trigger] out@[i]).byte_start <= (#[trigger] out@[j]).byte_start,
        decreases v@.len() - k,
    {
        let x = copy_node(&v[k]);
        let mut i: usize = 0;
        while i < out.len() && !(x.byte_start < out[i].byte_start)
            invariant
                i <= out@.len(),
                forall|a: int| 0 <= a < i ==> !(x.byte_start < (#[trigger] out@[a]).byte_start),
            decreases out@.len() - i,
        {
            i = i + 1;
        }
        let ghost before = out@;
        proof {
            lemma_insert_pos(before, x, start_order(), i as int);
            lemma_stable_sorted_step(v@, k as int, start_order());
        }
        out.insert(i, x);
        proof {
            assert(out@ =~= before.insert(i as int, x));
            assert forall|a: int, b: int| 0 <= a < b < out@.len() implies (#[trigger] out@[a]).byte_start <= (#[trigger] out@[b]).byte_start by {
                if b < i {
                    assert(out@[a] == before[a] && out@[b] == before[b]);
                } else if b == i {
                    assert(out@[a] == before[a]);
                } else if a < i {
                    assert(out@[a] == before[a] && out@[b] == before[b - 1]);
                } else if a == i {
                    assert(out@[b] == before[b - 1]);
                    assert(x.byte_start < before[i as int].byte_start);
                    if b - 1 > i {
                        assert(before[i as int].byte_start <= before[b - 1].byte_start);
                    }
                } else {
                    assert(out@[a] == before[a - 1] && out@[b] == before[b - 1]);
                }
            }
        }
        k = k + 1;
    }
    assert(v@.take(v@.len() as int) =~= v@);
    out
}

/// Whether the row is stored without a file or with file `fid`, and its
/// node's span holds byte `pos`.
pub open spec fn at_pos(row: AstRow, fid: Option<i64>, pos: usize) -> bool {
    (row.file_id is None || row.file_id == fid) && holds_pos(row.node, pos)
}

impl CodeGraph {
    /// The AST nodes of the file at `file_path`, sorted by where they start
    /// (nodes that start together in stored order), each without text;
    /// none when no file has that path.
    pub fn get_ast_nodes_by_file(&self, file_path: &str) -> (r: Result<Vec<AstNodeWithText>, GraphQueryError>)
        ensures
            r is Ok,
            match file_id_for(self.file_index@, file_path@) {
                Some(id) => r->Ok_0@.map_values(|w: AstNodeWithText| w.node)
                    == stable_sorted(select_nodes(self.ast_nodes@, in_file(id)), start_order()),
                None => r->Ok_0@.len() == 0,
            },
            forall|i: int| 0 <= i < r->Ok_0@.len() ==> (#[trigger] r->Ok_0@[i]).text is None,
    {
        let id = find_file_id(&self.file_index, file_path);
        match id {
            Some(f) => {
                let picked = select(&self.ast_nodes, Ghost(in_file(f)), Some(f), None, None);
                let nodes = sort_by_start(&picked);
                let mut out: Vec<AstNodeWithText> = Vec::new();
                let mut k: usize = 0;
                while k < nodes.len()
                    invariant
                        k <= nodes@.len(),
                        out@.map_values(|w: AstNodeWithText| w.node) == nodes@.take(k as int),
                        forall|j: int| 0 <= j < out@.len() ==> (#[trigger] out@[j]).text is None,
                    decreases nodes@.len() - k,
                {
                    let ghost before = out@;
                    let w = AstNodeWithText::from_node(copy_node(&nodes[k]), None);
                    assert(w.node == nodes@[k as int]);
                    out.push(w);
                    assert(out@ =~= before.push(w));
                    assert(out@.map_values(|w: AstNodeWithText| w.node)
                        =~= before.map_values(|w: AstNodeWithText| w.node).push(w.node));
                    assert(nodes@.take(k + 1) =~= nodes@.take(k as int).push(nodes@[k as int]));
                    assert(out@.map_values(|w: AstNodeWithText| w.node) =~= nodes@.take(k + 1));
                    k = k + 1;
                }
                assert(nodes@.take(nodes@.len() as int) =~= nodes@);
                Ok(out)
            },
            None => Ok(Vec::new()),
        }
    }

    /// The AST nodes whose parent is node `node_id`, in stored order.
    pub fn get_ast_children(&self, node_id: i64) -> (r: Result<Vec<AstNode>, GraphQueryError>)
        ensures
            r is Ok && r->Ok_0@ == select_nodes(self.ast_nodes@, child_of(node_id)),
    {
        Ok(select(&self.ast_nodes, Ghost(child_of(node_id)), None, Some(Some(node_id)), None))
    }

    /// The AST nodes of kind `kind`, in stored order.
    pub fn get_ast_nodes_by_kind(&self, kind: &str) -> (r: Result<Vec<AstNode>, GraphQueryError>)
        ensures
            r is Ok && r->Ok_0@ == select_nodes(self.ast_nodes@, of_kind(kind@)),
    {
        Ok(select(&self.ast_nodes, Ghost(of_kind(kind@)), None, None, Some(kind)))
    }

    /// The AST nodes without a parent, in stored order.
    pub fn get_ast_roots(&self) -> (r: Result<Vec<AstNode>, GraphQueryError>)
        ensures
            r is Ok && r->Ok_0@ == select_nodes(self.ast_nodes@, is_root()),
    {
        Ok(select(&self.ast_nodes, Ghost(is_root()), None, Some(None), None))
    }

    /// How many AST nodes are stored.
    pub fn count_ast_nodes(&self) -> (r: Result<usize, GraphQueryError>)
        ensures
            r == Ok::<usize, GraphQueryError>(self.ast_nodes@.len() as usize),
    {
        Ok(self.ast_nodes.len())
    }

    /// The innermost AST node of the file at `file_path` at byte
    /// `position`: of that file's nodes (and the nodes stored without a
    /// file) whose span holds it, the first with the shortest span; none
    /// when none holds it. Nodes stored under another file are not
    /// considered.
    pub fn get_ast_node_at_position(&self, file_path: &str, position: usize) -> (r: Result<Option<AstNode>, GraphQueryError>)
        ensures
            r is Ok,
            ({
                let fid = file_id_for(self.file_index@, file_path@);
                &&& r->Ok_0 is None ==> forall|j: int| 0 <= j < self.ast_nodes@.len() ==> !at_pos(#[trigger] self.ast_nodes@[j], fid, position)
                &&& r->Ok_0 matches Some(n) ==> exists|i: int| #![trigger self.ast_nodes@[i]] 0 <= i < self.ast_nodes@.len()
                    && self.ast_nodes@[i].node == n && at_pos(self.ast_nodes@[i], fid, position)
                    && (forall|j: int| 0 <= j < self.ast_nodes@.len() && at_pos(#[trigger] self.ast_nodes@[j], fid, position)
                        ==> span_len(self.ast_nodes@[j].node) >= span_len(n))
                    && (forall|j: int| 0 <= j < i && at_pos(#[trigger] self.ast_nodes@[j], fid, position)
                        ==> span_len(self.ast_nodes@[j].node) > span_len(n))
            }),
    {
        let fid = find_file_id(&self.file_index, file_path);
        let rows = &self.ast_nodes;
        let mut best: Option<usize> = None;
        let mut i: usize = 0;
        while i < rows.len()
            invariant
                i <= rows@.len(),
                best is None ==> forall|j: int| 0 <= j < i ==> !at_pos(#[trigger] rows@[j], fid, position),
                best matches Some(b) ==> b < i && at_pos(rows@[b as int], fid, position)
                    && (forall|j: int| 0 <= j < i && at_pos(#[trigger] rows@[j], fid, position)
                        ==> span_len(rows@[j].node) >= span_len(rows@[b as int].node))
                    && (forall|j: int| 0 <= j < b && at_pos(#[trigger] rows@[j], fid, position)
                        ==> span_len(rows@[j].node) > span_len(rows@[b as int].node)),
            decreases rows@.len() - i,
        {
            let n = &rows[i].node;
            if (rows[i].file_id.is_none() || rows[i].file_id == fid) && n.byte_start <= position && position < n.byte_end {
                match best {
                    None => {
                        best = Some(i);
                    },
                    Some(b) => {
                        let m = &rows[b].node;
                        if n.byte_end - n.byte_start < m.byte_end - m.byte_start {
                            best = Some(i);
                        }
                    },
                }
            }
            i = i + 1;
        }
        match best {
            None => Ok(None),
            Some(b) => {
                let n = copy_node(&rows[b].node);
                assert(self.ast_nodes@[b as int].node == n);
                Ok(Some(n))
            },
        }
    }
}

} // verus!
