//! Project-map vocabulary: node kinds, edge predicates, and what an
//! extractor emits before anything is resolved.

use vstd::prelude::*;
use crate::text::str_eq;

verus! {

/// What a node is.
#[derive(Clone, Copy, Debug, PartialEq, Eq, Structural)]
pub enum NodeKind {
    /// A whole file.
    File,
    /// A markdown heading and the prose under it.
    Section,
}

/// The stored name of each node kind.
pub open spec fn node_kind_name(k: NodeKind) -> Seq<char> {
    match k {
        NodeKind::File => "file"@,
        NodeKind::Section => "section"@,
    }
}

/// The node kind a stored name denotes, if any.
pub open spec fn node_kind_named(s: Seq<char>) -> Option<NodeKind> {
    if s == "file"@ {
        Some(NodeKind::File)
    } else if s == "section"@ {
        Some(NodeKind::Section)
    } else {
        None
    }
}

impl NodeKind {
    pub fn as_str(self) -> (r: &'static str)
        ensures
            r@ == node_kind_name(self),
    {
        match self {
            NodeKind::File => "file",
            NodeKind::Section => "section",
        }
    }

    pub fn parse(raw: &str) -> (r: Option<NodeKind>)
        ensures
            r == node_kind_named(raw@),
    {
        if str_eq(raw, "file") {
            Some(NodeKind::File)
        } else if str_eq(raw, "section") {
            Some(NodeKind::Section)
        } else {
            None
        }
    }
}

/// A node kind's stored name reads back as that kind, and only that
/// kind's name does.
pub proof fn node_kind_round_trip(k: NodeKind, name: Seq<char>)
    ensures
        node_kind_named(node_kind_name(k)) == Some(k),
        node_kind_named(name) == Some(k) ==> node_kind_name(k) == name,
{
    reveal_strlit("file");
    reveal_strlit("section");
    assert("file"@[0] == 'f' && "section"@[0] == 's');
}

/// A typed, directed relation.
#[derive(Clone, Copy, Debug, PartialEq, Eq, Structural)]
pub enum EdgePredicate {
    /// A file contains a section, a section contains a deeper one.
    Contains,
    /// An explicit markdown link.
    Links,
    /// One file names another: a heuristic, the only predicate that
    /// can be wrong.
    Mentions,
    /// An import statement.
    Imports,
}

/// The stored name of each predicate.
pub open spec fn predicate_name(p: EdgePredicate) -> Seq<char> {
    match p {
        EdgePredicate::Contains => "contains"@,
        EdgePredicate::Links => "links"@,
        EdgePredicate::Mentions => "mentions"@,
        EdgePredicate::Imports => "imports"@,
    }
}

/// The predicate a stored name denotes, if any.
pub open spec fn predicate_named(s: Seq<char>) -> Option<EdgePredicate> {
    if s == "contains"@ {
        Some(EdgePredicate::Contains)
    } else if s == "links"@ {
        Some(EdgePredicate::Links)
    } else if s == "mentions"@ {
        Some(EdgePredicate::Mentions)
    } else if s == "imports"@ {
        Some(EdgePredicate::Imports)
    } else {
        None
    }
}

impl EdgePredicate {
    pub fn as_str(self) -> (r: &'static str)
        ensures
            r@ == predicate_name(self),
    {
        match self {
            EdgePredicate::Contains => "contains",
            EdgePredicate::Links => "links",
            EdgePredicate::Mentions => "mentions",
            EdgePredicate::Imports => "imports",
        }
    }

    pub fn parse(raw: &str) -> (r: Option<EdgePredicate>)
        ensures
            r == predicate_named(raw@),
    {
        if str_eq(raw, "contains") {
            Some(EdgePredicate::Contains)
        } else if str_eq(raw, "links") {
            Some(EdgePredicate::Links)
        } else if str_eq(raw, "mentions") {
            Some(EdgePredicate::Mentions)
        } else if str_eq(raw, "imports") {
            Some(EdgePredicate::Imports)
        } else {
            None
        }
    }
}

/// A predicate's stored name reads back as that predicate, and only
/// that predicate's name does.
pub proof fn predicate_round_trip(p: EdgePredicate, name: Seq<char>)
    ensures
        predicate_named(predicate_name(p)) == Some(p),
        predicate_named(name) == Some(p) ==> predicate_name(p) == name,
{
    reveal_strlit("contains");
    reveal_strlit("links");
    reveal_strlit("mentions");
    reveal_strlit("imports");
    assert("contains"@[0] == 'c' && "links"@[0] == 'l' && "mentions"@[0] == 'm' && "imports"@[0]
        == 'i');
}

/// A stored edge. `dst_id` is `None` when the target named no node;
/// `dst_fqn` says what it reached for regardless.
#[derive(Clone, Debug)]
pub struct GraphEdge {
    pub id: String,
    pub project: String,
    pub src_id: String,
    pub dst_id: Option<String>,
    pub dst_fqn: String,
    pub predicate: EdgePredicate,
    pub file_path: String,
    pub line: i64,
}

/// A node an extractor found, before it has an id.
#[derive(Clone, Debug)]
pub struct ExtractedNode {
    pub fqn: String,
    pub name: String,
    pub kind: NodeKind,
    pub extension: String,
    pub file_path: String,
    pub start_line: i64,
    pub end_line: i64,
    pub excerpt: Option<String>,
    pub content_hash: String,
    /// Indexed for search, not stored on the node.
    pub search_text: String,
}

/// An extracted node as a value: identity, name, kind, extension,
/// file, first and last line, excerpt, content hash, search text.
pub type NodeV = (
    Seq<char>,
    Seq<char>,
    NodeKind,
    Seq<char>,
    Seq<char>,
    i64,
    i64,
    Option<Seq<char>>,
    Seq<char>,
    Seq<char>,
);

impl View for ExtractedNode {
    type V = NodeV;

    open spec fn view(&self) -> NodeV {
        (
            self.fqn@,
            self.name@,
            self.kind,
            self.extension@,
            self.file_path@,
            self.start_line,
            self.end_line,
            match self.excerpt {
                Some(e) => Some(e@),
                None => None,
            },
            self.content_hash@,
            self.search_text@,
        )
    }
}

/// An edge an extractor found, before its endpoints are resolved.
#[derive(Clone, Debug)]
pub struct ExtractedEdge {
    /// The identity of the source node, which the same extractor emitted.
    pub src_fqn: String,
    /// What the source pointed at, verbatim.
    pub dst_fqn: String,
    pub predicate: EdgePredicate,
    pub file_path: String,
    pub line: i64,
}

/// An extracted edge as a value: source, target, predicate, file,
/// line.
pub type ExtractedEdgeV = (Seq<char>, Seq<char>, EdgePredicate, Seq<char>, i64);

impl View for ExtractedEdge {
    type V = ExtractedEdgeV;

    open spec fn view(&self) -> ExtractedEdgeV {
        (self.src_fqn@, self.dst_fqn@, self.predicate, self.file_path@, self.line)
    }
}

/// The views of extracted nodes.
pub open spec fn node_views(v: Seq<ExtractedNode>) -> Seq<NodeV> {
    v.map_values(|n: ExtractedNode| n@)
}

/// The views of extracted edges.
pub open spec fn edge_views(v: Seq<ExtractedEdge>) -> Seq<ExtractedEdgeV> {
    v.map_values(|e: ExtractedEdge| e@)
}

/// Everything the extractors found in one file.
#[derive(Clone, Debug)]
pub struct FileExtraction {
    pub nodes: Vec<ExtractedNode>,
    pub edges: Vec<ExtractedEdge>,
}

impl FileExtraction {
    /// An extraction holding nothing.
    pub fn empty() -> (r: Self)
        ensures
            r.nodes@.len() == 0,
            r.edges@.len() == 0,
    {
        FileExtraction { nodes: Vec::new(), edges: Vec::new() }
    }

    /// Appends another extraction's nodes and edges, in order.
    pub fn merge(&mut self, other: Self)
        ensures
            final(self).nodes@ == old(self).nodes@ + other.nodes@,
            final(self).edges@ == old(self).edges@ + other.edges@,
    {
        let mut other = other;
        self.nodes.append(&mut other.nodes);
        self.edges.append(&mut other.edges);
    }
}

impl Default for FileExtraction {
    fn default() -> (r: Self)
        ensures
            r.nodes@.len() == 0,
            r.edges@.len() == 0,
    {
        FileExtraction::empty()
    }
}

/// What one indexing run did. `edges_unresolved` is the cost of
/// refusing to guess.
#[derive(Clone, Copy, Debug)]
pub struct IndexStats {
    pub files_discovered: usize,
    pub files_indexed: usize,
    pub files_skipped: usize,
    pub nodes: usize,
    pub edges: usize,
    pub edges_resolved: usize,
    pub edges_unresolved: usize,
    pub elapsed_ms: u128,
}

impl IndexStats {
    /// Every count zero.
    pub fn zero() -> (s: Self)
        ensures
            s.files_discovered == 0 && s.files_indexed == 0 && s.files_skipped == 0 && s.nodes == 0
                && s.edges == 0 && s.edges_resolved == 0 && s.edges_unresolved == 0 && s.elapsed_ms
                == 0,
    {
        IndexStats {
            files_discovered: 0,
            files_indexed: 0,
            files_skipped: 0,
            nodes: 0,
            edges: 0,
            edges_resolved: 0,
            edges_unresolved: 0,
            elapsed_ms: 0,
        }
    }
}

/// One file node, reduced to what any finding needs.
#[derive(Clone, Debug)]
pub struct FileFacts {
    pub id: String,
    pub fqn: String,
    pub lines: i64,
}

} // verus!
