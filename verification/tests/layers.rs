use atlas::graph::layers::{LayerDecl, LayersError, LayersFile, ModuleDecl};

/// Reads a declaration the way the application does: TOML into the
/// library's value, then the library's validation.
fn parse(source: &str) -> Result<LayersFile, LayersError> {
    let table: toml::Table =
        toml::from_str(source).map_err(|e| LayersError::Malformed(e.to_string()))?;
    let strings = |v: Option<&toml::Value>| -> Vec<String> {
        v.and_then(|v| v.as_array())
            .map(|a| a.iter().map(|s| s.as_str().unwrap().to_owned()).collect())
            .unwrap_or_default()
    };
    let tables = |key: &str| -> Vec<toml::Table> {
        table
            .get(key)
            .and_then(|v| v.as_array())
            .map(|a| a.iter().map(|t| t.as_table().unwrap().clone()).collect())
            .unwrap_or_default()
    };
    let modules = tables("module")
        .iter()
        .map(|t| ModuleDecl {
            name: t["name"].as_str().unwrap().to_owned(),
            path: t["path"].as_str().unwrap().to_owned(),
            description: t.get("description").and_then(|d| d.as_str()).map(str::to_owned),
        })
        .collect();
    let layers = tables("layer")
        .iter()
        .map(|t| LayerDecl {
            name: t["name"].as_str().unwrap().to_owned(),
            paths: strings(t.get("paths")),
            depends_on: strings(t.get("depends_on")),
        })
        .collect();
    let file = LayersFile { modules, layers };
    file.validate()?;
    Ok(file)
}

#[test]
fn a_full_declaration_parses() {
    let file = parse(
        r#"
        [[module]]
        name = "auth"
        path = "features/auth"

        [[layer]]
        name = "domain"
        paths = ["**/internal/domain/**"]

        [[layer]]
        name = "application"
        paths = ["**/internal/application/**"]
        depends_on = ["domain"]
        "#,
    )
    .unwrap();

    assert_eq!(file.modules.len(), 1);
    assert_eq!(file.layers.len(), 2);
    assert_eq!(file.layers[1].depends_on, vec!["domain"]);
    assert!(file.layers[0].depends_on.is_empty());
}

#[test]
fn an_empty_file_is_valid_and_declares_nothing() {
    assert!(parse("").unwrap().is_empty());
}

#[test]
fn a_dependency_declared_later_in_the_file_still_resolves() {
    let file = parse(
        r#"
        [[layer]]
        name = "application"
        paths = ["a/**"]
        depends_on = ["domain"]

        [[layer]]
        name = "domain"
        paths = ["d/**"]
        "#,
    );
    assert!(file.is_ok(), "{file:?}");
}

#[test]
fn a_dependency_on_an_undeclared_layer_is_rejected_by_name() {
    let err = parse(
        r#"
        [[layer]]
        name = "application"
        paths = ["a/**"]
        depends_on = ["persistence"]
        "#,
    )
    .unwrap_err();

    assert_eq!(
        err,
        LayersError::UnknownDependency {
            layer: "application".to_owned(),
            missing: "persistence".to_owned(),
        }
    );
}

#[test]
fn a_layer_depending_on_itself_is_rejected() {
    let err = parse(
        r#"
        [[layer]]
        name = "domain"
        paths = ["d/**"]
        depends_on = ["domain"]
        "#,
    )
    .unwrap_err();
    assert_eq!(err, LayersError::SelfDependency("domain".to_owned()));
}

#[test]
fn a_layer_with_no_paths_is_rejected() {
    let err = parse(
        r#"
        [[layer]]
        name = "domain"
        paths = []
        "#,
    )
    .unwrap_err();
    assert_eq!(err, LayersError::LayerWithoutPaths("domain".to_owned()));
}

#[test]
fn a_duplicate_layer_is_rejected() {
    let err = parse(
        r#"
        [[layer]]
        name = "domain"
        paths = ["a/**"]

        [[layer]]
        name = "domain"
        paths = ["b/**"]
        "#,
    )
    .unwrap_err();
    assert_eq!(err, LayersError::DuplicateLayer("domain".to_owned()));
}

#[test]
fn a_duplicate_module_is_rejected() {
    let err = parse(
        r#"
        [[module]]
        name = "auth"
        path = "features/auth"

        [[module]]
        name = "auth"
        path = "features/authz"
        "#,
    )
    .unwrap_err();
    assert_eq!(err, LayersError::DuplicateModule("auth".to_owned()));
}

#[test]
fn malformed_toml_names_the_problem_rather_than_the_file() {
    let err = parse("[[layer]\nname = ").unwrap_err();
    assert!(
        matches!(err, LayersError::Malformed(ref m) if !m.is_empty()),
        "{err:?}"
    );
}

#[test]
fn a_blank_module_name_is_rejected() {
    let err = parse(
        r#"
        [[module]]
        name = "  "
        path = "x"
        "#,
    )
    .unwrap_err();
    assert_eq!(err, LayersError::EmptyName);
}

#[test]
fn a_blank_layer_name_is_rejected() {
    let file = LayersFile {
        modules: vec![],
        layers: vec![LayerDecl {
            name: "\t".to_owned(),
            paths: vec!["a/**".to_owned()],
            depends_on: vec![],
        }],
    };
    assert_eq!(file.validate(), Err(LayersError::EmptyName));
}

#[test]
fn a_module_fault_is_reported_before_a_layer_fault() {
    let file = LayersFile {
        modules: vec![
            ModuleDecl { name: "m".to_owned(), path: "a".to_owned(), description: None },
            ModuleDecl { name: "m".to_owned(), path: "b".to_owned(), description: None },
        ],
        layers: vec![LayerDecl {
            name: "l".to_owned(),
            paths: vec![],
            depends_on: vec![],
        }],
    };
    assert_eq!(file.validate(), Err(LayersError::DuplicateModule("m".to_owned())));
}

#[test]
fn an_empty_declaration_is_empty() {
    assert!(LayersFile::empty().is_empty());
}
