use atlas::graph::impact::{is_within, spread};

fn strings(v: &[&str]) -> Vec<String> {
    v.iter().map(|s| (*s).to_owned()).collect()
}

fn pairs(v: &[(&str, &str)]) -> Vec<(String, String)> {
    v.iter().map(|(a, b)| ((*a).to_owned(), (*b).to_owned())).collect()
}

#[test]
fn a_module_directory_does_not_claim_a_similarly_named_sibling() {
    assert!(is_within("features/auth/src/api.rs", "features/auth"));
    assert!(is_within("features/auth", "features/auth"));
    assert!(
        !is_within("features/authz/src/api.rs", "features/auth"),
        "a prefix match claimed a different module"
    );
}

#[test]
fn a_trailing_slash_in_a_declaration_is_tolerated() {
    assert!(is_within("features/auth/src/api.rs", "features/auth/"));
}

#[test]
fn distance_counts_hops_away_from_the_change() {
    // c imports b imports a. Changing a reaches b at 1, c at 2.
    let importers = pairs(&[("b", "a"), ("c", "b")]);
    let path_of = pairs(&[("a", "a.rs"), ("b", "b.rs"), ("c", "c.rs")]);

    let out = spread(&strings(&["a"]), &importers, &path_of, 3);
    assert_eq!(out.len(), 2);
    assert_eq!((out[0].path.as_str(), out[0].distance), ("b.rs", 1));
    assert_eq!((out[1].path.as_str(), out[1].distance), ("c.rs", 2));
}

#[test]
fn depth_stops_the_spread() {
    let importers = pairs(&[("b", "a"), ("c", "b"), ("d", "c")]);
    let path_of = pairs(&[("a", "a.rs"), ("b", "b.rs"), ("c", "c.rs"), ("d", "d.rs")]);

    let out = spread(&strings(&["a"]), &importers, &path_of, 1);
    assert_eq!(out.len(), 1);
    assert_eq!(out[0].path, "b.rs");
}

#[test]
fn a_cycle_terminates_rather_than_spinning() {
    let importers = pairs(&[("b", "a"), ("a", "b")]);
    let path_of = pairs(&[("a", "a.rs"), ("b", "b.rs")]);

    let out = spread(&strings(&["a"]), &importers, &path_of, 5);
    assert_eq!(out.len(), 1);
    assert_eq!(out[0].path, "b.rs");
}

#[test]
fn a_file_reachable_two_ways_reports_its_shortest_distance() {
    // d imports a directly and also imports c, which imports a.
    let importers = pairs(&[("d", "a"), ("c", "a"), ("d", "c")]);
    let path_of = pairs(&[("a", "a.rs"), ("c", "c.rs"), ("d", "d.rs")]);

    let out = spread(&strings(&["a"]), &importers, &path_of, 5);
    let d = out.iter().find(|i| i.path == "d.rs").unwrap();
    assert_eq!(d.distance, 1, "the longer path won");
}

#[test]
fn a_second_changed_file_is_not_also_reported_as_impact() {
    let importers = pairs(&[("b", "a")]);
    let path_of = pairs(&[("a", "a.rs"), ("b", "b.rs")]);

    let out = spread(&strings(&["a", "b"]), &importers, &path_of, 5);
    assert!(out.is_empty(), "{out:?}");
}

#[test]
fn a_level_is_reported_in_path_order() {
    let importers = pairs(&[("z", "a"), ("m", "a"), ("b", "a")]);
    let path_of = pairs(&[("z", "z.rs"), ("m", "m.rs"), ("b", "b.rs")]);
    let out = spread(&strings(&["a"]), &importers, &path_of, 2);
    let paths: Vec<&str> = out.iter().map(|i| i.path.as_str()).collect();
    assert_eq!(paths, vec!["b.rs", "m.rs", "z.rs"]);
}

#[test]
fn a_file_with_no_recorded_path_is_traversed_but_not_reported() {
    let importers = pairs(&[("x", "a"), ("c", "x")]);
    let path_of = pairs(&[("c", "c.rs")]);
    let out = spread(&strings(&["a"]), &importers, &path_of, 3);
    assert_eq!(out.len(), 1);
    assert_eq!((out[0].path.as_str(), out[0].distance), ("c.rs", 2));
}

#[test]
fn depth_zero_reaches_nothing() {
    let importers = pairs(&[("b", "a")]);
    let path_of = pairs(&[("b", "b.rs")]);
    assert!(spread(&strings(&["a"]), &importers, &path_of, 0).is_empty());
}
