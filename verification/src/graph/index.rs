//! One indexing run between reading the files and writing the graph:
//! every readable file handed to every extractor that handles it, in
//! order, and the manifest the watcher compares against later.

use vstd::prelude::*;

use crate::graph::digest::{blake3_hex, blake3_hex_of};
use crate::graph::extract::imports::{import_edges, prose_extension, ImportsExtractor};
use crate::graph::extract::markdown::{count_i64, count_to_i64, markdown_extraction};
use crate::graph::extract::{
    file_node, markdown_extension, Extractor, FileContext, FilesystemExtractor, MarkdownExtractor,
};
use crate::graph::model::{edge_views, node_views, ExtractedEdgeV, FileExtraction, NodeV};
use crate::graph::rows::{file_row_views, FileRow, FileRowV};
use crate::text::lines;

verus! {

/// A file the walker found and the reader could read.
#[derive(Clone, Debug)]
pub struct SourceFile {
    /// Relative to the project root, `/`-separated.
    pub relative_path: String,
    pub extension: String,
    pub content: String,
}

/// What every extractor finds in one file, in extractor order: the
/// file's own node; for markdown, its sections and links; unless the
/// file is prose, its imports.
pub open spec fn file_findings(
    path: Seq<char>,
    ext: Seq<char>,
    content: Seq<char>,
    hash: Seq<char>,
) -> (Seq<NodeV>, Seq<ExtractedEdgeV>) {
    let md: (Seq<NodeV>, Seq<ExtractedEdgeV>) = if markdown_extension(ext) {
        markdown_extraction(path, hash, content)
    } else {
        (Seq::empty(), Seq::empty())
    };
    let im: Seq<ExtractedEdgeV> = if prose_extension(ext) {
        Seq::empty()
    } else {
        import_edges(path, lines(content))
    };
    (seq![file_node(path, ext, content, hash)] + md.0, md.1 + im)
}

/// The content hash a file is indexed under.
pub open spec fn source_hash(content: Seq<char>) -> Seq<char> {
    blake3_hex_of(vstd::utf8::encode_utf8(content))
}

/// [`file_findings`] for a source file.
pub open spec fn source_findings(f: SourceFile) -> (Seq<NodeV>, Seq<ExtractedEdgeV>) {
    file_findings(f.relative_path@, f.extension@, f.content@, source_hash(f.content@))
}

/// Every node found, file by file.
pub open spec fn harvest_nodes(files: Seq<SourceFile>) -> Seq<NodeV>
    decreases files.len(),
{
    if files.len() == 0 {
        Seq::empty()
    } else {
        harvest_nodes(files.drop_last()) + source_findings(files.last()).0
    }
}

/// Every edge found, file by file.
pub open spec fn harvest_edges(files: Seq<SourceFile>) -> Seq<ExtractedEdgeV>
    decreases files.len(),
{
    if files.len() == 0 {
        Seq::empty()
    } else {
        harvest_edges(files.drop_last()) + source_findings(files.last()).1
    }
}

/// The manifest entry of a file: its path, hash, extension and how
/// many nodes it gave.
pub open spec fn manifest_entry(f: SourceFile) -> FileRowV {
    (
        f.relative_path@,
        source_hash(f.content@),
        f.extension@,
        count_i64(source_findings(f).0.len()),
    )
}

/// What indexing the files found.
pub struct Harvest {
    pub extraction: FileExtraction,
    pub manifest: Vec<FileRow>,
    /// Each file's path and text, for the mentions pass.
    pub contents: Vec<(String, String)>,
}

/// Hands one file to every extractor that handles it, in order.
pub fn extract_file(ctx: &FileContext, imports: &ImportsExtractor) -> (r: FileExtraction)
    ensures
        (node_views(r.nodes@), edge_views(r.edges@)) == file_findings(
            ctx.relative_path@,
            ctx.extension@,
            ctx.content@,
            ctx.content_hash@,
        ),
{
    let fs = FilesystemExtractor;
    let mut out = fs.extract(ctx);
    let md = MarkdownExtractor;
    if md.handles(ctx) {
        out.merge(md.extract(ctx));
    }
    if imports.handles(ctx) {
        out.merge(imports.extract(ctx));
    }
    assert(node_views(out.nodes@) =~= file_findings(
        ctx.relative_path@,
        ctx.extension@,
        ctx.content@,
        ctx.content_hash@,
    ).0);
    assert(edge_views(out.edges@) =~= file_findings(
        ctx.relative_path@,
        ctx.extension@,
        ctx.content@,
        ctx.content_hash@,
    ).1);
    out
}

/// Extracts every file, in order, hashing each and recording it in
/// the manifest.
pub fn index_sources(files: &[SourceFile]) -> (r: Harvest)
    ensures
        node_views(r.extraction.nodes@) == harvest_nodes(files@),
        edge_views(r.extraction.edges@) == harvest_edges(files@),
        file_row_views(r.manifest@) == files@.map_values(|f: SourceFile| manifest_entry(f)),
        crate::text::pair_views(r.contents@) == files@.map_values(
            |f: SourceFile| (f.relative_path@, f.content@),
        ),
{
    let imports = ImportsExtractor::new();
    let mut extraction = FileExtraction::empty();
    let mut manifest: Vec<FileRow> = Vec::new();
    let mut contents: Vec<(String, String)> = Vec::new();
    let mut i: usize = 0;
    while i < files.len()
        invariant
            i <= files@.len(),
            node_views(extraction.nodes@) == harvest_nodes(files@.take(i as int)),
            edge_views(extraction.edges@) == harvest_edges(files@.take(i as int)),
            file_row_views(manifest@) == files@.take(i as int).map_values(
                |f: SourceFile| manifest_entry(f),
            ),
            crate::text::pair_views(contents@) == files@.take(i as int).map_values(
                |f: SourceFile| (f.relative_path@, f.content@),
            ),
        decreases files@.len() - i,
    {
        let f = &files[i];
        proof {
            let pre = files@.take(i + 1);
            assert(pre.drop_last() =~= files@.take(i as int));
            assert(pre.last() == files@[i as int]);
        }
        let hash = blake3_hex(f.content.as_str().as_bytes());
        let ctx = FileContext {
            relative_path: f.relative_path.as_str(),
            extension: f.extension.as_str(),
            content: f.content.as_str(),
            content_hash: hash.as_str(),
        };
        let found = extract_file(&ctx, &imports);
        let ghost n0 = node_views(extraction.nodes@);
        let ghost e0 = edge_views(extraction.edges@);
        let ghost fv = (node_views(found.nodes@), edge_views(found.edges@));
        let before = extraction.nodes.len();
        extraction.merge(found);
        assert(node_views(extraction.nodes@) =~= n0 + fv.0);
        assert(edge_views(extraction.edges@) =~= e0 + fv.1);
        let after = extraction.nodes.len();
        let row = FileRow {
            file_path: f.relative_path.clone(),
            content_hash: hash,
            extension: f.extension.clone(),
            node_count: count_to_i64(after - before),
        };
        let ghost m0 = file_row_views(manifest@);
        manifest.push(row);
        assert(file_row_views(manifest@) =~= m0.push(row@));
        let ghost c0 = crate::text::pair_views(contents@);
        let entry = (f.relative_path.clone(), f.content.clone());
        contents.push(entry);
        assert(crate::text::pair_views(contents@) =~= c0.push((entry.0@, entry.1@)));
        proof {
            assert(files@.take(i + 1).map_values(|f: SourceFile| manifest_entry(f)) =~= files@.take(
                i as int,
            ).map_values(|f: SourceFile| manifest_entry(f)).push(manifest_entry(files@[i as int])));
            assert(files@.take(i + 1).map_values(|f: SourceFile| (f.relative_path@, f.content@))
                =~= files@.take(i as int).map_values(
                |f: SourceFile| (f.relative_path@, f.content@),
            ).push((files@[i as int].relative_path@, files@[i as int].content@)));
        }
        i = i + 1;
    }
    assert(files@.take(i as int) =~= files@);
    Harvest { extraction, manifest, contents }
}

} // verus!
