//! What an indexing run hands to storage: nodes with their ids
//! assigned, edges with their targets resolved, and one manifest entry
//! per file.

use vstd::prelude::*;

use crate::graph::model::{EdgePredicate, NodeKind};

verus! {

/// A node about to be written, with its id already assigned so edges
/// can point at it before it exists in storage.
#[derive(Clone, Debug)]
pub struct NodeRow {
    pub id: String,
    pub fqn: String,
    pub name: String,
    pub kind: NodeKind,
    pub extension: String,
    pub file_path: String,
    pub start_line: i64,
    pub end_line: i64,
    pub excerpt: Option<String>,
    pub content_hash: String,
    pub search_text: String,
}

/// An edge about to be written. `dst_id` is `None` when the target
/// named no node.
#[derive(Clone, Debug)]
pub struct EdgeRow {
    pub src_id: String,
    pub dst_id: Option<String>,
    pub dst_fqn: String,
    pub predicate: EdgePredicate,
    pub file_path: String,
    pub line: i64,
}

/// One manifest entry: what a file held when it was indexed.
#[derive(Clone, Debug)]
pub struct FileRow {
    pub file_path: String,
    pub content_hash: String,
    pub extension: String,
    pub node_count: i64,
}

} // verus!

verus! {

/// A stored edge as a value: source id, target id if resolved, target
/// identity, predicate, file, line.
pub type EdgeRowV = (
    Seq<char>,
    Option<Seq<char>>,
    Seq<char>,
    EdgePredicate,
    Seq<char>,
    i64,
);

impl View for EdgeRow {
    type V = EdgeRowV;

    open spec fn view(&self) -> EdgeRowV {
        (
            self.src_id@,
            match self.dst_id {
                Some(d) => Some(d@),
                None => None,
            },
            self.dst_fqn@,
            self.predicate,
            self.file_path@,
            self.line,
        )
    }
}

/// The views of stored edges.
pub open spec fn edge_row_views(v: Seq<EdgeRow>) -> Seq<EdgeRowV> {
    v.map_values(|e: EdgeRow| e@)
}

} // verus!

verus! {

/// A manifest entry as a value: file, content hash, extension, how
/// many nodes the file gave.
pub type FileRowV = (Seq<char>, Seq<char>, Seq<char>, i64);

impl View for FileRow {
    type V = FileRowV;

    open spec fn view(&self) -> FileRowV {
        (self.file_path@, self.content_hash@, self.extension@, self.node_count)
    }
}

/// The views of manifest entries.
pub open spec fn file_row_views(v: Seq<FileRow>) -> Seq<FileRowV> {
    v.map_values(|f: FileRow| f@)
}

} // verus!

verus! {

/// The shape of a project's graph at a glance.
#[derive(Debug)]
pub struct Overview {
    pub files: i64,
    pub sections: i64,
    pub edges_by_predicate: Vec<(String, i64)>,
    pub edges_unresolved: i64,
    pub hubs: Vec<(String, i64)>,
    pub orphan_files: i64,
    /// What the project declared as its own subdivisions. Empty when it
    /// declared none: every directory is a candidate subdivision, and a
    /// list of all of them is a directory listing, not a map.
    pub modules: Vec<crate::graph::layers::ModuleDecl>,
}

} // verus!
