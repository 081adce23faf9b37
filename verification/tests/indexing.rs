use atlas::graph::index::{index_sources, SourceFile};
use atlas::graph::mentions::{line_of_word, mentions};
use atlas::graph::model::{EdgePredicate, IndexStats, NodeKind};
use atlas::graph::resolve::assign_and_resolve;
use atlas::graph::rows::{EdgeRow, NodeRow};
use atlas::graph::walk::{
    admits, has_null_byte, is_blacklisted_dir, is_ignored_path, relative_path_of, sort_discovered,
    DiscoveredFile,
};

/// The graph the library builds from these files, in the order given:
/// extraction, the mentions pass, ids, resolution.
fn index(files: &[(&str, &str)]) -> (Vec<NodeRow>, Vec<EdgeRow>, IndexStats) {
    let sources: Vec<SourceFile> = files
        .iter()
        .map(|(path, content)| SourceFile {
            relative_path: path.to_string(),
            extension: path
                .rsplit('/')
                .next()
                .and_then(|name| name.rsplit_once('.'))
                .map(|(_, e)| e.to_owned())
                .unwrap_or_default(),
            content: content.to_string(),
        })
        .collect();
    let mut harvest = index_sources(&sources);
    let found = mentions(&harvest.extraction.nodes, &harvest.contents);
    harvest.extraction.edges.extend(found);
    let mut stats = IndexStats::zero();
    stats.files_indexed = sources.len();
    let (nodes, edges) = assign_and_resolve(&harvest.extraction, &mut stats);
    stats.nodes = nodes.len();
    stats.edges = edges.len();
    (nodes, edges, stats)
}

fn id_of<'a>(nodes: &'a [NodeRow], fqn: &str) -> &'a str {
    &nodes.iter().find(|n| n.fqn == fqn).expect("no such node").id
}

fn edges_from<'a>(nodes: &[NodeRow], edges: &'a [EdgeRow], fqn: &str, p: EdgePredicate) -> Vec<&'a EdgeRow> {
    let id = id_of(nodes, fqn);
    edges.iter().filter(|e| e.src_id == id && e.predicate == p).collect()
}

fn target_of(nodes: &[NodeRow], e: &EdgeRow) -> Option<String> {
    e.dst_id
        .as_ref()
        .map(|d| nodes.iter().find(|n| &n.id == d).unwrap().fqn.clone())
}

fn fixture() -> Vec<(&'static str, &'static str)> {
    vec![
        (
            "README.md",
            "# Overview\n\nThe entry point is [the server](src/server.rs).\n\n## Setup\n\nRun it.\n\n### Prerequisites\n\nRust.\n\n## Usage\n\nSee [setup](#setup).\n",
        ),
        ("src/server.rs", "use crate::config;\nuse std::sync::Arc;\n\nfn main() {}\n"),
        ("src/config.rs", "pub struct Config;\n"),
        ("src/lonely.rs", "pub fn nobody_calls_me() {}\n"),
    ]
}

#[test]
fn indexes_files_and_markdown_sections() {
    let (nodes, _, stats) = index(&fixture());
    assert_eq!(stats.files_indexed, 4);
    assert_eq!(nodes.iter().filter(|n| n.kind == NodeKind::File).count(), 4);
    assert_eq!(nodes.iter().filter(|n| n.kind == NodeKind::Section).count(), 4);
    let server = nodes.iter().find(|n| n.fqn == "src/server.rs").unwrap();
    assert_eq!(server.extension, "rs");
    assert!(server.excerpt.is_some());
    assert_eq!(server.content_hash.len(), 64);
}

#[test]
fn markdown_sections_nest_by_heading_level() {
    let (nodes, edges, _) = index(&fixture());
    let contained: Vec<&str> = edges_from(&nodes, &edges, "README.md#setup", EdgePredicate::Contains)
        .iter()
        .map(|e| e.dst_fqn.as_str())
        .collect();
    assert_eq!(contained, vec!["README.md#prerequisites"]);
}

#[test]
fn a_markdown_link_becomes_a_resolved_edge() {
    let (nodes, edges, _) = index(&fixture());
    let server = id_of(&nodes, "src/server.rs");
    assert!(edges
        .iter()
        .any(|e| e.predicate == EdgePredicate::Links && e.dst_id.as_deref() == Some(server)));
}

#[test]
fn a_relative_import_resolves_to_the_file_it_names() {
    let (nodes, edges, _) = index(&[
        ("src/a.ts", "import { b } from './b';\n"),
        ("src/b.ts", "export const b = 1;\n"),
    ]);
    let imports = edges_from(&nodes, &edges, "src/a.ts", EdgePredicate::Imports);
    assert_eq!(imports.len(), 1);
    assert_eq!(imports[0].dst_fqn, "src/b");
    assert_eq!(target_of(&nodes, imports[0]).as_deref(), Some("src/b.ts"));
}

#[test]
fn an_unresolvable_target_is_kept_but_left_unresolved() {
    let (nodes, edges, stats) = index(&[("src/a.ts", "import { x } from './missing';\n")]);
    assert_eq!(stats.edges_unresolved, 1);
    assert_eq!(stats.edges_resolved, 0);
    let imports = edges_from(&nodes, &edges, "src/a.ts", EdgePredicate::Imports);
    assert_eq!(imports[0].dst_fqn, "src/missing");
    assert!(imports[0].dst_id.is_none());
}

#[test]
fn a_dependency_import_produces_no_edge_at_all() {
    let (_, _, stats) = index(&[("src/a.ts", "import React from 'react';\n")]);
    assert_eq!(stats.edges, 0);
}

#[test]
fn a_module_path_import_resolves_by_unique_suffix() {
    let (nodes, edges, _) = index(&[
        ("features/graph/src/lib.rs", "use crate::internal::domain;\n"),
        ("features/graph/src/internal/domain/mod.rs", "pub struct Thing;\n"),
    ]);
    let imports = edges_from(&nodes, &edges, "features/graph/src/lib.rs", EdgePredicate::Imports);
    assert_eq!(
        target_of(&nodes, imports[0]).as_deref(),
        Some("features/graph/src/internal/domain/mod.rs")
    );
}

#[test]
fn a_module_path_prefers_the_candidate_nearest_the_importer() {
    let (nodes, edges, _) = index(&[
        ("a/src/lib.rs", "use crate::internal::domain;\n"),
        ("a/src/internal/domain/mod.rs", "pub struct A;\n"),
        ("b/src/internal/domain/mod.rs", "pub struct B;\n"),
    ]);
    let imports = edges_from(&nodes, &edges, "a/src/lib.rs", EdgePredicate::Imports);
    assert_eq!(target_of(&nodes, imports[0]).as_deref(), Some("a/src/internal/domain/mod.rs"));
}

#[test]
fn a_genuinely_equidistant_module_path_resolves_to_nothing() {
    let (nodes, edges, _) = index(&[
        ("main.rs", "use crate::internal::domain;\n"),
        ("a/src/internal/domain/mod.rs", "pub struct A;\n"),
        ("b/src/internal/domain/mod.rs", "pub struct B;\n"),
    ]);
    let imports = edges_from(&nodes, &edges, "main.rs", EdgePredicate::Imports);
    assert_eq!(imports.len(), 1);
    assert!(imports[0].dst_id.is_none());
}

#[test]
fn a_bare_dependency_name_is_still_ignored() {
    let (nodes, edges, _) = index(&[("src/a.rs", "use serde;\nuse std::sync::Arc;\n")]);
    let imports = edges_from(&nodes, &edges, "src/a.rs", EdgePredicate::Imports);
    assert!(imports.iter().all(|e| e.dst_id.is_none()));
}

fn workspace(extra: (&'static str, &'static str)) -> Vec<(&'static str, &'static str)> {
    let mut files = vec![
        ("features/auth/src/api.rs", "pub use crate::internal::application::router;\n"),
        ("features/auth/src/internal/application/router.rs", "pub fn routes() {}\n"),
        ("features/sync/src/api.rs", "pub use crate::internal::application::router;\n"),
    ];
    files.push(extra);
    files
}

#[test]
fn a_cross_crate_import_resolves_to_the_named_crate() {
    let (nodes, edges, _) = index(&workspace((
        "features/sync/src/internal/application/router.rs",
        "use atlas_auth::api::{AuthStore, User};\n",
    )));
    let imports = edges_from(
        &nodes,
        &edges,
        "features/sync/src/internal/application/router.rs",
        EdgePredicate::Imports,
    );
    assert_eq!(target_of(&nodes, imports[0]).as_deref(), Some("features/auth/src/api.rs"));
    // And each crate's own api resolves within the crate.
    let own = edges_from(&nodes, &edges, "features/sync/src/api.rs", EdgePredicate::Imports);
    assert_eq!(
        target_of(&nodes, own[0]).as_deref(),
        Some("features/sync/src/internal/application/router.rs")
    );
}

#[test]
fn a_third_party_import_never_resolves_to_a_local_file() {
    let (nodes, edges, _) = index(&[
        ("src/infrastructure/extract/mod.rs", "pub fn go() {}\n"),
        ("src/router.rs", "use axum::extract::{Query, State};\nuse crate::infrastructure::extract;\n"),
    ]);
    let target = id_of(&nodes, "src/infrastructure/extract/mod.rs");
    let incoming = edges
        .iter()
        .filter(|e| e.predicate == EdgePredicate::Imports && e.dst_id.as_deref() == Some(target))
        .count();
    assert_eq!(incoming, 1);
}

#[test]
fn an_import_naming_a_symbol_resolves_to_the_file_defining_it() {
    let (nodes, edges, _) = index(&[
        ("src/internal/infrastructure/mod.rs", "pub struct AfgStore;\n"),
        ("src/api.rs", "pub use crate::internal::infrastructure::AfgStore;\n"),
    ]);
    let imports = edges_from(&nodes, &edges, "src/api.rs", EdgePredicate::Imports);
    assert_eq!(
        target_of(&nodes, imports[0]).as_deref(),
        Some("src/internal/infrastructure/mod.rs")
    );
}

#[test]
fn shortening_never_reaches_a_third_party_package() {
    let (nodes, edges, _) = index(&[
        ("src/extract/mod.rs", "pub fn go() {}\n"),
        ("src/router.rs", "use axum::extract::State;\n"),
    ]);
    let target = id_of(&nodes, "src/extract/mod.rs");
    assert!(!edges
        .iter()
        .any(|e| e.predicate == EdgePredicate::Imports && e.dst_id.as_deref() == Some(target)));
}

#[test]
fn shortening_stops_rather_than_guessing_between_candidates() {
    let (nodes, edges, _) = index(&[
        ("one/handlers/mod.rs", "pub struct Thing;\n"),
        ("two/handlers/mod.rs", "pub struct Thing;\n"),
        ("app.rs", "use handlers::Thing;\n"),
    ]);
    let imports = edges_from(&nodes, &edges, "app.rs", EdgePredicate::Imports);
    assert!(imports.iter().all(|e| e.dst_id.is_none()));
}

#[test]
fn a_file_mentioning_another_by_name_gets_a_mentions_edge() {
    let (nodes, edges, _) = index(&[
        ("docs/notes.txt", "The session store lives in sessions.rs, see there.\n"),
        ("src/sessions.rs", "pub struct Store;\n"),
    ]);
    let found = edges_from(&nodes, &edges, "docs/notes.txt", EdgePredicate::Mentions);
    assert_eq!(found.len(), 1);
    assert_eq!(found[0].dst_fqn, "src/sessions.rs");
    assert_eq!(found[0].line, 1);
    assert!(found[0].dst_id.is_some());
}

#[test]
fn a_mention_inside_a_longer_word_does_not_count() {
    let (nodes, edges, _) = index(&[
        ("notes.txt", "the author wrote this\n"),
        ("auth.rs", "pub fn x() {}\n"),
    ]);
    assert!(edges_from(&nodes, &edges, "notes.txt", EdgePredicate::Mentions).is_empty());
}

#[test]
fn an_ambiguous_or_short_stem_is_never_looked_for() {
    let (nodes, edges, _) = index(&[
        ("notes.txt", "see config and id here\n"),
        ("a/config.rs", "\n"),
        ("b/config.rs", "\n"),
        ("src/id.rs", "\n"),
    ]);
    assert!(edges_from(&nodes, &edges, "notes.txt", EdgePredicate::Mentions).is_empty());
}

#[test]
fn line_of_word_numbers_lines_from_one_and_skips_partial_words() {
    assert_eq!(line_of_word("alpha\nbeta gamma\n", "gamma"), Some(2));
    assert_eq!(line_of_word("gammas\n", "gamma"), None);
    assert_eq!(line_of_word("x_gamma gamma\n", "gamma"), Some(1));
    assert_eq!(line_of_word("", "gamma"), None);
}

#[test]
fn an_edge_from_an_unknown_source_is_dropped_and_counted_nowhere() {
    let (_, edges, stats) = index(&[]);
    assert!(edges.is_empty());
    assert_eq!(stats.edges_resolved + stats.edges_unresolved, 0);
}

#[test]
fn blacklisted_directories_are_ignored_wherever_they_sit() {
    assert!(is_ignored_path("target/debug/build.rs"));
    assert!(is_ignored_path("web/node_modules/dep/index.js"));
    assert!(is_ignored_path("/abs/project/.git/HEAD"));
    assert!(!is_ignored_path("src/targets.rs"));
    assert!(!is_ignored_path("src/vendored/x.rs"));
    assert!(is_blacklisted_dir("coverage"));
    assert!(!is_blacklisted_dir("src"));
}

#[test]
fn lockfiles_large_files_and_binaries_are_not_admitted() {
    assert!(admits("main.rs", 10, false));
    assert!(!admits("Cargo.lock", 10, false));
    assert!(!admits("main.rs", 1_000_001, false));
    assert!(admits("main.rs", 1_000_000, false));
    assert!(!admits("main.rs", 10, true));
    assert!(has_null_byte(&[1, 0, 2]));
    assert!(!has_null_byte(b"text"));
}

#[test]
fn discovered_files_sort_by_relative_path() {
    let f = |p: &str| DiscoveredFile {
        absolute_path: format!("/root/{p}"),
        relative_path: p.to_owned(),
        extension: String::new(),
    };
    let sorted = sort_discovered(vec![f("b/a.rs"), f("a/z.rs"), f("a.rs"), f("a/b.rs")]);
    let names: Vec<&str> = sorted.iter().map(|d| d.relative_path.as_str()).collect();
    assert_eq!(names, vec!["a.rs", "a/b.rs", "a/z.rs", "b/a.rs"]);
    assert_eq!(
        relative_path_of(&vec!["src".to_owned(), "main.rs".to_owned()]),
        "src/main.rs"
    );
}
