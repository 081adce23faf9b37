use atlas::graph::extract::default_extractors;
use atlas::graph::findings::{analyse, hubs, large_files, orphans, undocumented_directories, Declaration, Findings, Severity, is_entry_point};
use atlas::graph::index::{index_sources, SourceFile};
use atlas::graph::mentions::mentions;
use atlas::graph::model::{EdgePredicate, FileFacts, IndexStats, NodeKind};
use atlas::graph::resolve::assign_and_resolve;
use atlas::graph::reach::{certify_components, order_sinks_first, reverse_graph};
use atlas::graph::scc::strongly_connected;

/// Indexes the files and analyses the result the way the analyser
/// reads the store: file nodes ordered by identity, resolved imports.
fn report(files: &[(&str, &str)]) -> Findings {
    let sources: Vec<SourceFile> = files
        .iter()
        .map(|(path, content)| SourceFile {
            relative_path: path.to_string(),
            extension: path
                .rsplit('/')
                .next()
                .and_then(|n| n.rsplit_once('.'))
                .map(|(_, e)| e.to_owned())
                .unwrap_or_default(),
            content: content.to_string(),
        })
        .collect();
    let mut harvest = index_sources(&sources);
    let found = mentions(&harvest.extraction.nodes, &harvest.contents);
    harvest.extraction.edges.extend(found);
    let mut stats = IndexStats::zero();
    let (nodes, edges) = assign_and_resolve(&harvest.extraction, &mut stats);
    let mut facts: Vec<FileFacts> = nodes
        .iter()
        .filter(|n| n.kind == NodeKind::File)
        .map(|n| FileFacts { id: n.id.clone(), fqn: n.fqn.clone(), lines: n.end_line })
        .collect();
    facts.sort_by(|a, b| a.fqn.cmp(&b.fqn));
    let imports: Vec<(String, String, Option<i64>)> = edges
        .iter()
        .filter(|e| e.predicate == EdgePredicate::Imports)
        .filter_map(|e| e.dst_id.clone().map(|d| (e.src_id.clone(), d, Some(e.line))))
        .collect();
    let unresolved = edges
        .iter()
        .filter(|e| e.predicate == EdgePredicate::Imports && e.dst_id.is_none())
        .count();
    analyse(&facts, &imports, unresolved, &Declaration::Absent)
}

fn of_kind<'a>(r: &'a Findings, kind: &str) -> Option<&'a atlas::graph::findings::Finding> {
    r.findings.iter().find(|f| f.kind == kind)
}

#[test]
fn a_two_file_import_cycle_is_found() {
    let r = report(&[
        ("src/a.ts", "import { b } from './b';\n"),
        ("src/b.ts", "import { a } from './a';\n"),
    ]);
    let cycle = of_kind(&r, "import_cycle").expect("the cycle was not found");
    assert_eq!(cycle.severity, Severity::Warning);
    assert_eq!(cycle.nodes.len(), 2);
    assert!(cycle.nodes.contains(&"src/a.ts".to_owned()));
    assert!(cycle.nodes.contains(&"src/b.ts".to_owned()));
}

#[test]
fn a_longer_cycle_is_found_as_one_finding() {
    let r = report(&[
        ("src/a.ts", "import { b } from './b';\n"),
        ("src/b.ts", "import { c } from './c';\n"),
        ("src/c.ts", "import { a } from './a';\n"),
    ]);
    let cycles: Vec<_> = r.findings.iter().filter(|f| f.kind == "import_cycle").collect();
    assert_eq!(cycles.len(), 1);
    assert_eq!(cycles[0].nodes.len(), 3);
}

#[test]
fn a_clean_dependency_chain_reports_no_cycle() {
    let r = report(&[
        ("src/a.ts", "import { b } from './b';\n"),
        ("src/b.ts", "import { c } from './c';\n"),
        ("src/c.ts", "export const c = 1;\n"),
    ]);
    assert!(of_kind(&r, "import_cycle").is_none());
}

#[test]
fn two_separate_cycles_are_two_findings() {
    let r = report(&[
        ("one/a.ts", "import { b } from './b';\n"),
        ("one/b.ts", "import { a } from './a';\n"),
        ("two/x.ts", "import { y } from './y';\n"),
        ("two/y.ts", "import { x } from './x';\n"),
    ]);
    assert_eq!(r.findings.iter().filter(|f| f.kind == "import_cycle").count(), 2);
}

#[test]
fn mentions_never_produce_a_cycle() {
    let r = report(&[
        ("alpha.ts", "// see bravo for the other half\nexport const a = 1;\n"),
        ("bravo.ts", "// see alpha for the other half\nexport const b = 1;\n"),
    ]);
    assert!(of_kind(&r, "import_cycle").is_none());
    assert_eq!(r.evidence.resolved_imports, 0);
}

#[test]
fn the_report_publishes_what_it_was_computed_from() {
    let r = report(&[
        ("src/a.ts", "import { b } from './b';\nimport React from 'react';\n"),
        ("src/b.ts", "export const b = 1;\n"),
    ]);
    assert_eq!(r.evidence.files, 2);
    assert_eq!(r.evidence.resolved_imports, 1);
    assert_eq!(r.evidence.unresolved_imports, 0);
}

#[test]
fn an_unreferenced_source_file_is_reported_but_entry_points_are_not() {
    let r = report(&[
        ("src/main.ts", "import { used } from './used';\n"),
        ("src/used.ts", "export const used = 1;\n"),
        ("src/forgotten.ts", "export const nobody = 1;\n"),
        ("README.md", "# Docs\n"),
    ]);
    let o = of_kind(&r, "unreferenced_file").expect("nothing was reported");
    assert!(o.nodes.contains(&"src/forgotten.ts".to_owned()));
    assert!(!o.nodes.iter().any(|n| n.contains("main")));
    assert!(!o.nodes.iter().any(|n| n.ends_with(".md")));
}

#[test]
fn a_long_file_is_reported_and_prose_is_not() {
    let long = "const x = 1;\n".repeat(700);
    let prose = "a line of prose\n".repeat(700);
    let r = report(&[
        ("src/huge.ts", &long),
        ("docs/huge.md", &prose),
        ("src/small.ts", "const y = 2;\n"),
    ]);
    let large = of_kind(&r, "large_file").expect("the long file was not reported");
    assert!(large.nodes.contains(&"src/huge.ts".to_owned()));
    assert!(!large.nodes.iter().any(|n| n.ends_with(".md")));
    assert!(!large.nodes.contains(&"src/small.ts".to_owned()));
}

#[test]
fn a_directory_without_a_readme_is_reported() {
    let r = report(&[
        ("documented/README.md", "# Here\n"),
        ("documented/code.ts", "export const a = 1;\n"),
        ("bare/code.ts", "export const b = 1;\n"),
    ]);
    let u = of_kind(&r, "undocumented_directory").expect("nothing was reported");
    assert!(u.nodes.contains(&"bare".to_owned()));
    assert!(!u.nodes.contains(&"documented".to_owned()));
}

#[test]
fn warnings_come_before_information() {
    let r = report(&[
        ("src/a.ts", "import { b } from './b';\n"),
        ("src/b.ts", "import { a } from './a';\n"),
        ("src/lonely.ts", "export const c = 1;\n"),
    ]);
    assert!(r.findings.len() >= 2);
    assert_eq!(r.findings[0].severity, Severity::Warning);
}

#[test]
fn a_clean_project_reports_nothing_alarming() {
    let r = report(&[
        ("README.md", "# Clean\n"),
        ("src/main.ts", "import { helper } from './helper';\n"),
        ("src/helper.ts", "export const helper = 1;\n"),
        ("src/README.md", "# Source\n"),
    ]);
    assert!(r.findings.iter().all(|f| f.severity == Severity::Info), "{:?}", r.findings);
}

fn facts(list: &[(&str, &str, i64)]) -> Vec<FileFacts> {
    list.iter()
        .map(|(id, fqn, lines)| FileFacts { id: id.to_string(), fqn: fqn.to_string(), lines: *lines })
        .collect()
}

#[test]
fn a_file_imported_by_eight_others_is_a_hub() {
    let mut list = vec![("hub", "src/hub.ts", 10)];
    let names: Vec<String> = (0..8).map(|i| format!("src/f{i}.ts")).collect();
    let ids: Vec<String> = (0..8).map(|i| format!("f{i}")).collect();
    for i in 0..8 {
        list.push((ids[i].as_str(), names[i].as_str(), 10));
    }
    let files = facts(&list);
    let imports: Vec<(String, String)> = ids.iter().map(|i| (i.clone(), "hub".to_owned())).collect();
    let found = hubs(&files, &imports);
    assert_eq!(found.len(), 1);
    assert_eq!(found[0].kind, "widely_depended_on");
    assert_eq!(found[0].nodes, vec!["src/hub.ts".to_owned()]);
    assert!(hubs(&files, &imports[..7].to_vec()).is_empty());
}

#[test]
fn the_large_file_threshold_is_inclusive_and_the_longest_come_first() {
    let files = facts(&[("z", "src/z.rs", 599), ("a", "src/a.rs", 600), ("b", "src/b.rs", 601)]);
    let found = large_files(&files);
    assert_eq!(found.len(), 1);
    assert_eq!(found[0].nodes, vec!["src/b.rs".to_owned(), "src/a.rs".to_owned()]);
    assert_eq!(found[0].severity, Severity::Info);
}

#[test]
fn an_orphan_touches_no_import_and_is_code() {
    let files = facts(&[
        ("a", "src/a.rs", 1),
        ("b", "src/b.rs", 1),
        ("c", "src/c.rs", 1),
        ("m", "src/main.rs", 1),
        ("n", "notes.txt", 1),
    ]);
    let found = orphans(&files, &[("a".to_owned(), "b".to_owned())]);
    assert_eq!(found.len(), 1);
    assert_eq!(found[0].nodes, vec!["src/c.rs".to_owned()]);
    assert!(is_entry_point("src/main.rs"));
    assert!(is_entry_point("lib.rs"));
    assert!(!is_entry_point("src/helper.rs"));
}

#[test]
fn a_readme_in_any_case_documents_its_directory() {
    let files = facts(&[("a", "docs/readme.MD", 1), ("b", "docs/x.rs", 1), ("c", "top.rs", 1)]);
    assert!(undocumented_directories(&files).is_empty());
}

#[test]
fn strongly_connected_partitions_the_nodes() {
    // 0 -> 1 -> 2 -> 0, 3 -> 0, 4 alone.
    let g = vec![vec![1], vec![2], vec![0], vec![0], vec![]];
    let mut comps: Vec<Vec<usize>> = strongly_connected(&g)
        .into_iter()
        .map(|mut c| {
            c.sort();
            c
        })
        .collect();
    comps.sort();
    assert_eq!(comps, vec![vec![0, 1, 2], vec![3], vec![4]]);
}

#[test]
fn components_come_out_sinks_first() {
    // 0 <-> 1 -> 2 <-> 3: the pair {2, 3} is closed before {0, 1}.
    let g = vec![vec![1], vec![0, 2], vec![3], vec![2]];
    let comps: Vec<Vec<usize>> = strongly_connected(&g)
        .into_iter()
        .map(|mut c| {
            c.sort();
            c
        })
        .collect();
    assert_eq!(comps, vec![vec![2, 3], vec![0, 1]]);
}

#[test]
fn a_listing_is_certified_only_when_it_is_the_components_sinks_first() {
    // 0 <-> 1 -> 2 <-> 3
    let g = vec![vec![1], vec![0, 2], vec![3], vec![2]];
    let r = reverse_graph(&g);
    assert!(certify_components(&g, &r, &vec![vec![2, 3], vec![0, 1]]));
    assert!(certify_components(&g, &r, &vec![vec![3, 2], vec![1, 0]]));
    // The right components, but an edge leads to a later one.
    assert!(!certify_components(&g, &r, &vec![vec![0, 1], vec![2, 3]]));
    // Nodes that do not reach each other listed together.
    assert!(!certify_components(&g, &r, &vec![vec![2, 3], vec![0], vec![1]]));
    assert!(!certify_components(&g, &r, &vec![vec![0, 1, 2, 3]]));
}

#[test]
fn every_index_runs_the_file_markdown_and_import_extractors_in_order() {
    let names: Vec<&str> = default_extractors().iter().map(|e| e.name()).collect();
    assert_eq!(names, vec!["filesystem", "markdown", "imports"]);
}

#[test]
fn the_sink_component_comes_first() {
    let g = vec![vec![1], vec![0, 2], vec![]];
    let comps: Vec<Vec<usize>> = strongly_connected(&g)
        .into_iter()
        .map(|mut c| {
            c.sort();
            c
        })
        .collect();
    assert_eq!(comps, vec![vec![2], vec![0, 1]]);
}

#[test]
fn components_found_another_way_are_put_sinks_first() {
    // 0 <-> 1 -> 2 <-> 3, 4 -> 0
    let g = vec![vec![1], vec![0, 2], vec![3], vec![2], vec![0]];
    let ordered = order_sinks_first(&g, &vec![vec![4], vec![0, 1], vec![2, 3]]);
    assert_eq!(ordered, vec![vec![2, 3], vec![0, 1], vec![4]]);
}
