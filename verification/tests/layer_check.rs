use atlas::graph::layer_check::{check, LayerReport, LayerRules};
use atlas::graph::layers::{LayerDecl, LayersError, LayersFile, ModuleDecl};

/// TOML into the library's declaration, then its validation.
fn parse(source: &str) -> Result<LayersFile, LayersError> {
    let table: toml::Table =
        toml::from_str(source).map_err(|e| LayersError::Malformed(e.to_string()))?;
    let strings = |v: Option<&toml::Value>| -> Vec<String> {
        v.and_then(|v| v.as_array())
            .map(|a| a.iter().map(|s| s.as_str().unwrap().to_owned()).collect())
            .unwrap_or_default()
    };
    let tables = |key: &str| -> Vec<toml::Table> {
        table
            .get(key)
            .and_then(|v| v.as_array())
            .map(|a| a.iter().map(|t| t.as_table().unwrap().clone()).collect())
            .unwrap_or_default()
    };
    let modules = tables("module")
        .iter()
        .map(|t| ModuleDecl {
            name: t["name"].as_str().unwrap().to_owned(),
            path: t["path"].as_str().unwrap().to_owned(),
            description: None,
        })
        .collect();
    let layers = tables("layer")
        .iter()
        .map(|t| LayerDecl {
            name: t["name"].as_str().unwrap().to_owned(),
            paths: strings(t.get("paths")),
            depends_on: strings(t.get("depends_on")),
        })
        .collect();
    let file = LayersFile { modules, layers };
    file.validate()?;
    Ok(file)
}

fn rules(toml: &str) -> LayerRules {
    LayerRules::compile(&parse(toml).unwrap()).unwrap()
}

fn per_layer(report: &LayerReport, name: &str) -> Option<usize> {
    report
        .files_per_layer
        .iter()
        .find(|(n, _)| n == name)
        .map(|(_, c)| *c)
}

const THREE_LAYERS: &str = r#"
    [[layer]]
    name = "domain"
    paths = ["**/domain/**"]

    [[layer]]
    name = "application"
    paths = ["**/application/**"]
    depends_on = ["domain"]

    [[layer]]
    name = "infrastructure"
    paths = ["**/infrastructure/**"]
    depends_on = ["domain", "application"]
"#;

#[test]
fn a_layer_may_always_import_from_itself() {
    let rules = rules(THREE_LAYERS);
    assert!(rules.permits("domain", "domain"));
}

#[test]
fn a_declared_dependency_is_permitted_and_its_reverse_is_not() {
    let rules = rules(THREE_LAYERS);
    assert!(rules.permits("application", "domain"));
    assert!(
        !rules.permits("domain", "application"),
        "the dependency was permitted in both directions"
    );
}

#[test]
fn files_are_classified_by_their_path() {
    let rules = rules(THREE_LAYERS);
    assert_eq!(
        rules.layer_of("src/internal/domain/model.rs").as_deref(),
        Some("domain")
    );
    assert_eq!(
        rules.layer_of("src/internal/infrastructure/store.rs").as_deref(),
        Some("infrastructure")
    );
    assert_eq!(rules.layer_of("src/main.rs"), None);
}

#[test]
fn a_domain_file_importing_infrastructure_is_a_violation() {
    let rules = rules(THREE_LAYERS);
    let files = vec![
        ("d".to_owned(), "src/domain/model.rs".to_owned()),
        ("i".to_owned(), "src/infrastructure/store.rs".to_owned()),
    ];
    let imports = vec![("d".to_owned(), "i".to_owned(), Some(3))];

    let report = check(&rules, &files, &imports);
    assert_eq!(report.violations.len(), 1);
    assert_eq!(report.violations[0].from_layer, "domain");
    assert_eq!(report.violations[0].to_layer, "infrastructure");
    assert_eq!(report.violations[0].line, Some(3));
    assert!(report.coverage.is_complete());
}

#[test]
fn the_permitted_direction_is_not_a_violation() {
    let rules = rules(THREE_LAYERS);
    let files = vec![
        ("d".to_owned(), "src/domain/model.rs".to_owned()),
        ("a".to_owned(), "src/application/service.rs".to_owned()),
    ];
    let imports = vec![("a".to_owned(), "d".to_owned(), Some(1))];

    assert!(check(&rules, &files, &imports).violations.is_empty());
}

#[test]
fn an_unclassified_file_is_never_reported() {
    let rules = rules(THREE_LAYERS);
    let files = vec![
        ("m".to_owned(), "src/main.rs".to_owned()),
        ("d".to_owned(), "src/domain/model.rs".to_owned()),
    ];
    let imports = vec![("m".to_owned(), "d".to_owned(), None)];

    let report = check(&rules, &files, &imports);
    assert!(report.violations.is_empty());
    assert_eq!(report.coverage.files_unclassified, 1);
    assert_eq!(report.coverage.imports_unclassified, 1);
    assert_eq!(report.coverage.imports_checked, 0);
    assert!(
        !report.coverage.is_complete(),
        "an incomplete check reported itself as complete"
    );
}

#[test]
fn a_layer_matching_no_file_still_appears_in_the_report() {
    let rules = rules(
        r#"
        [[layer]]
        name = "domain"
        paths = ["**/domain/**"]

        [[layer]]
        name = "nothing"
        paths = ["does/not/exist/**"]
        "#,
    );
    let files = vec![("d".to_owned(), "src/domain/model.rs".to_owned())];

    let report = check(&rules, &files, &[]);
    assert_eq!(per_layer(&report, "nothing"), Some(0));
    assert_eq!(per_layer(&report, "domain"), Some(1));
}

#[test]
fn an_invalid_pattern_is_refused_rather_than_skipped() {
    let file = parse(
        r#"
        [[layer]]
        name = "domain"
        paths = ["**/domain/{"]
        "#,
    )
    .unwrap();
    assert!(matches!(
        LayerRules::compile(&file),
        Err(LayersError::InvalidPattern { .. })
    ));
}

#[test]
fn an_overlap_resolves_to_the_first_declaration() {
    let rules = rules(
        r#"
        [[layer]]
        name = "first"
        paths = ["src/**"]

        [[layer]]
        name = "second"
        paths = ["src/**"]
        "#,
    );
    assert_eq!(rules.layer_of("src/a.rs").as_deref(), Some("first"));
}

#[test]
fn the_same_input_twice_produces_the_same_report() {
    let rules = rules(THREE_LAYERS);
    let files = vec![
        ("d".to_owned(), "src/domain/a.rs".to_owned()),
        ("e".to_owned(), "src/domain/b.rs".to_owned()),
        ("i".to_owned(), "src/infrastructure/s.rs".to_owned()),
    ];
    let imports = vec![
        ("e".to_owned(), "i".to_owned(), Some(2)),
        ("d".to_owned(), "i".to_owned(), Some(9)),
    ];

    let first = check(&rules, &files, &imports);
    let second = check(&rules, &files, &imports);
    let paths = |r: &LayerReport| {
        r.violations
            .iter()
            .map(|v| (v.from_file.clone(), v.line))
            .collect::<Vec<_>>()
    };
    assert_eq!(paths(&first), paths(&second));
    assert_eq!(paths(&first)[0].0, "src/domain/a.rs");
}

#[test]
fn violations_are_ordered_by_file_then_line_then_target() {
    let rules = rules(THREE_LAYERS);
    let files = vec![
        ("d".to_owned(), "src/domain/a.rs".to_owned()),
        ("i".to_owned(), "src/infrastructure/s.rs".to_owned()),
        ("j".to_owned(), "src/infrastructure/r.rs".to_owned()),
        ("p".to_owned(), "src/application/p.rs".to_owned()),
    ];
    let imports = vec![
        ("d".to_owned(), "i".to_owned(), Some(5)),
        ("d".to_owned(), "j".to_owned(), Some(5)),
        ("d".to_owned(), "p".to_owned(), None),
        ("d".to_owned(), "i".to_owned(), Some(-1)),
    ];
    let report = check(&rules, &files, &imports);
    let got: Vec<(Option<i64>, String)> = report
        .violations
        .iter()
        .map(|v| (v.line, v.to_file.clone()))
        .collect();
    assert_eq!(
        got,
        vec![
            (None, "src/application/p.rs".to_owned()),
            (Some(-1), "src/infrastructure/s.rs".to_owned()),
            (Some(5), "src/infrastructure/r.rs".to_owned()),
            (Some(5), "src/infrastructure/s.rs".to_owned()),
        ]
    );
    assert_eq!(report.coverage.imports_checked, 4);
}

#[test]
fn per_layer_counts_are_in_name_order_and_count_every_entry() {
    let rules = rules(THREE_LAYERS);
    let files = vec![
        ("a".to_owned(), "src/domain/a.rs".to_owned()),
        ("b".to_owned(), "src/domain/b.rs".to_owned()),
        ("c".to_owned(), "src/infrastructure/c.rs".to_owned()),
        ("m".to_owned(), "src/main.rs".to_owned()),
    ];
    let report = check(&rules, &files, &[]);
    assert_eq!(
        report.files_per_layer,
        vec![
            ("application".to_owned(), 0),
            ("domain".to_owned(), 2),
            ("infrastructure".to_owned(), 1),
        ]
    );
    assert_eq!(report.coverage.files_classified, 3);
    assert_eq!(report.coverage.files_unclassified, 1);
}

#[test]
fn the_last_declaration_of_a_name_gives_its_dependencies() {
    let file = LayersFile {
        modules: vec![],
        layers: vec![
            LayerDecl { name: "x".to_owned(), paths: vec!["x/**".to_owned()], depends_on: vec!["y".to_owned()] },
            LayerDecl { name: "y".to_owned(), paths: vec!["y/**".to_owned()], depends_on: vec![] },
            LayerDecl { name: "x".to_owned(), paths: vec!["z/**".to_owned()], depends_on: vec![] },
        ],
    };
    let rules = LayerRules::compile(&file).unwrap();
    assert!(!rules.permits("x", "y"));
    assert!(rules.permits("x", "x"));
}

#[test]
fn a_layer_whose_patterns_are_too_large_to_build_is_refused_not_fatal() {
    let huge = "?".repeat(1_000_000);
    let file = LayersFile {
        modules: Vec::new(),
        layers: vec![LayerDecl {
            name: "big".to_owned(),
            paths: vec![huge.clone(), "src/**".to_owned()],
            depends_on: Vec::new(),
        }],
    };
    match LayerRules::compile(&file) {
        Err(LayersError::InvalidPattern { layer, pattern, .. }) => {
            assert_eq!(layer, "big");
            assert_eq!(pattern, format!("{huge}, src/**"));
        }
        Err(other) => panic!("unexpected error {other:?}"),
        Ok(_) => panic!("a pattern beyond the size limit was accepted"),
    }
}
