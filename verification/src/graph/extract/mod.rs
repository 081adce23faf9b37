//! The extractors: each turns one file into nodes and unresolved
//! edges, reading text and matching patterns without knowing any
//! language.

pub mod imports;
pub mod markdown;

use vstd::prelude::*;
use crate::graph::extract::markdown::{count_i64, extract_markdown, markdown_extraction};
use crate::graph::findings::file_name;
use crate::graph::model::{edge_views, node_views, ExtractedNode, FileExtraction, NodeKind, NodeV};
use crate::text::{chars_of, chars_trim_start, find_last, lines, slice_chars, split_lines, string_of_vec, trim_start};

verus! {

/// One file, read once and handed to every extractor.
pub struct FileContext<'a> {
    /// Path relative to the project root, with `/` separators.
    pub relative_path: &'a str,
    pub extension: &'a str,
    pub content: &'a str,
    pub content_hash: &'a str,
}

} // verus!

verus! {

/// What every extractor offers.
pub trait Extractor {
    /// Short name, for saying which extractor produced what.
    fn name(&self) -> &'static str;

    /// Whether this extractor has anything to say about the file.
    fn handles(&self, file: &FileContext) -> bool;

    /// The nodes and unresolved edges this extractor finds in the file.
    fn extract(&self, file: &FileContext) -> FileExtraction;
}

/// How much of a file to keep as a preview, in characters.
pub const EXCERPT_CHARS: usize = 400;

/// A file's preview: its text without leading white space, cut after
/// 400 characters with an ellipsis.
pub open spec fn excerpt_of(content: Seq<char>) -> Seq<char> {
    let t = trim_start(content);
    if t.len() > 400 {
        t.take(400) + seq!['\u{2026}']
    } else {
        t
    }
}

/// A file's preview; see [`excerpt_of`].
pub fn excerpt(content: &str) -> (r: String)
    ensures
        r@ == excerpt_of(content@),
{
    let c = chars_of(content);
    let t = chars_trim_start(c.as_slice());
    if t.len() > 400 {
        let mut e = slice_chars(t.as_slice(), 0, 400);
        e.push('\u{2026}');
        assert(e@ =~= t@.take(400) + seq!['\u{2026}']);
        string_of_vec(&e)
    } else {
        string_of_vec(&t)
    }
}

/// The node for a whole file: named by its last path segment,
/// spanning all its lines (at least one), previewed, and searchable
/// by its whole text.
pub open spec fn file_node(path: Seq<char>, extension: Seq<char>, content: Seq<char>, hash: Seq<char>) -> NodeV {
    let ls = lines(content);
    (
        path,
        file_name(path),
        NodeKind::File,
        extension,
        path,
        1,
        count_i64(if ls.len() > 1 { ls.len() } else { 1 }),
        Some(excerpt_of(content)),
        hash,
        content,
    )
}

/// Every text file becomes exactly one node, the one the others hang
/// their edges from.
pub struct FilesystemExtractor;

impl Extractor for FilesystemExtractor {
    fn name(&self) -> (r: &'static str)
        ensures
            r@ == "filesystem"@,
    {
        "filesystem"
    }

    fn handles(&self, file: &FileContext) -> (r: bool)
        ensures
            r,
    {
        true
    }

    fn extract(&self, file: &FileContext) -> (r: FileExtraction)
        ensures
            node_views(r.nodes@) == seq![file_node(file.relative_path@, file.extension@, file.content@, file.content_hash@)],
            r.edges@.len() == 0,
    {
        let path = chars_of(file.relative_path);
        let name = match find_last(path.as_slice(), '/') {
            Some(i) => {
                proof {
                    crate::text::lemma_last_index(path@, '/');
                }
                let len = path.len();
                let r = slice_chars(path.as_slice(), i + 1, len);
                assert(r@ =~= path@.skip(i + 1));
                r
            },
            None => slice_chars(path.as_slice(), 0, path.len()),
        };
        assert(name@ == file_name(file.relative_path@));
        let content = chars_of(file.content);
        let ls = split_lines(content.as_slice());
        let n = ls.len();
        assert(lines(file.content@).len() == n);
        let node = ExtractedNode {
            fqn: string_of_vec(&path),
            name: string_of_vec(&name),
            kind: NodeKind::File,
            extension: string_of_vec(&chars_of(file.extension)),
            file_path: string_of_vec(&path),
            start_line: 1,
            end_line: crate::graph::extract::markdown::count_to_i64(if n > 1 { n } else { 1 }),
            excerpt: Some(excerpt(file.content)),
            content_hash: string_of_vec(&chars_of(file.content_hash)),
            search_text: string_of_vec(&content),
        };
        let nodes = vec![node];
        assert(node_views(nodes@) =~= seq![file_node(file.relative_path@, file.extension@, file.content@, file.content_hash@)]);
        FileExtraction { nodes, edges: Vec::new() }
    }
}

/// Whether the extension is one of those markdown is written in.
pub open spec fn markdown_extension(ext: Seq<char>) -> bool {
    ext == "md"@ || ext == "markdown"@ || ext == "mdx"@
}

/// Markdown headings as section nodes, links as edges.
pub struct MarkdownExtractor;

impl Extractor for MarkdownExtractor {
    fn name(&self) -> (r: &'static str)
        ensures
            r@ == "markdown"@,
    {
        "markdown"
    }

    fn handles(&self, file: &FileContext) -> (r: bool)
        ensures
            r == markdown_extension(file.extension@),
    {
        crate::text::str_eq(file.extension, "md") || crate::text::str_eq(file.extension, "markdown")
            || crate::text::str_eq(file.extension, "mdx")
    }

    fn extract(&self, file: &FileContext) -> (r: FileExtraction)
        ensures
            (node_views(r.nodes@), edge_views(r.edges@)) == markdown_extraction(
                file.relative_path@,
                file.content_hash@,
                file.content@,
            ),
    {
        extract_markdown(file)
    }
}

} // verus!

verus! {

/// The extractors every index runs, in order: files first, since the
/// others hang their edges from the file node, then markdown, then
/// imports.
pub fn default_extractors() -> (r: Vec<Box<dyn Extractor>>)
    ensures
        r@.len() == 3,
{
    let a: Box<dyn Extractor> = Box::new(FilesystemExtractor);
    let b: Box<dyn Extractor> = Box::new(MarkdownExtractor);
    let c: Box<dyn Extractor> = Box::new(crate::graph::extract::imports::ImportsExtractor::new());
    let r: Vec<Box<dyn Extractor>> = vec![a, b, c];
    r
}

} // verus!
