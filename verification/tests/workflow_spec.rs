use atlas::afg::error::AfgError;
use atlas::afg::parse::{pick_next_node, validate_spec};
use atlas::afg::spec::{AcceptanceCriterion, WorkflowNodeSpec, WorkflowSpec};

/// Reads a workflow the way the application does: YAML into the
/// library's value (with the same defaults), then the library's
/// validation.
fn parse_spec(yaml: &str) -> Result<WorkflowSpec, AfgError> {
    let doc: serde_yaml::Value =
        serde_yaml::from_str(yaml).map_err(|e| AfgError::Parse(e.to_string()))?;
    let text = |v: &serde_yaml::Value, key: &str| -> String {
        v.get(key).and_then(|x| x.as_str()).unwrap_or_default().to_owned()
    };
    let texts = |v: &serde_yaml::Value, key: &str| -> Vec<String> {
        v.get(key)
            .and_then(|x| x.as_sequence())
            .map(|s| s.iter().map(|i| i.as_str().unwrap().to_owned()).collect())
            .unwrap_or_default()
    };
    let nodes = doc
        .get("nodes")
        .and_then(|n| n.as_sequence())
        .cloned()
        .unwrap_or_default()
        .iter()
        .map(|n| WorkflowNodeSpec {
            id: text(n, "id"),
            title: text(n, "title"),
            instructions: text(n, "instructions"),
            depends_on: texts(n, "dependsOn"),
            agent_kind: n.get("agentKind").and_then(|x| x.as_str()).map(str::to_owned),
            acceptance_criteria: Vec::<AcceptanceCriterion>::new(),
            max_retries: n.get("maxRetries").and_then(|x| x.as_u64()).map_or(3, |x| x as u32),
            allowed_tools: texts(n, "allowedTools"),
        })
        .collect();
    let spec = WorkflowSpec {
        name: text(&doc, "name"),
        version: doc.get("version").and_then(|x| x.as_i64()).unwrap_or(1),
        description: doc.get("description").and_then(|x| x.as_str()).map(str::to_owned),
        nodes,
    };
    validate_spec(&spec)?;
    Ok(spec)
}

#[test]
fn rejects_empty_nodes() {
    let yaml = "name: empty\nnodes: []\n";
    assert!(matches!(parse_spec(yaml), Err(AfgError::Validation(_))));
}

#[test]
fn rejects_duplicate_ids() {
    let yaml = "
name: dup
nodes:
  - id: a
    title: A
    instructions: do a
  - id: a
    title: A again
    instructions: do a again
";
    assert!(matches!(parse_spec(yaml), Err(AfgError::Validation(_))));
}

#[test]
fn rejects_dangling_dependency() {
    let yaml = "
name: dangling
nodes:
  - id: a
    title: A
    instructions: do a
    dependsOn: [ghost]
";
    assert!(matches!(parse_spec(yaml), Err(AfgError::Validation(_))));
}

#[test]
fn rejects_cycle() {
    let yaml = "
name: cycle
nodes:
  - id: a
    title: A
    instructions: do a
    dependsOn: [b]
  - id: b
    title: B
    instructions: do b
    dependsOn: [a]
";
    assert!(matches!(parse_spec(yaml), Err(AfgError::Validation(_))));
}

#[test]
fn accepts_a_valid_linear_graph() {
    let yaml = "
name: linear
nodes:
  - id: a
    title: A
    instructions: do a
  - id: b
    title: B
    instructions: do b
    dependsOn: [a]
";
    let spec = parse_spec(yaml).unwrap();
    assert_eq!(spec.nodes.len(), 2);
    assert_eq!(spec.version, 1);
}

#[test]
fn accepts_a_dag_with_two_independent_branches() {
    let yaml = "
name: branches
nodes:
  - id: root
    title: Root
    instructions: start
  - id: left
    title: Left
    instructions: left branch
    dependsOn: [root]
  - id: right
    title: Right
    instructions: right branch
    dependsOn: [root]
";
    let spec = parse_spec(yaml).unwrap();
    assert_eq!(spec.nodes.len(), 3);
}

#[test]
fn pick_next_node_returns_first_runnable() {
    let spec = parse_spec(
        "
name: t
nodes:
  - id: a
    title: A
    instructions: a
  - id: b
    title: B
    instructions: b
    dependsOn: [a]
",
    )
    .unwrap();
    let first = pick_next_node(&spec, &[]).unwrap();
    assert_eq!(first.id, "a");
    let second = pick_next_node(&spec, &["a".to_owned()]).unwrap();
    assert_eq!(second.id, "b");
    assert!(pick_next_node(&spec, &["a".to_owned(), "b".to_owned()]).is_none());
}

#[test]
fn a_blank_node_id_is_rejected() {
    let yaml = "
name: blank
nodes:
  - id: '  '
    title: A
    instructions: a
";
    assert!(matches!(parse_spec(yaml), Err(AfgError::Validation(m)) if m == "node id is empty"));
}

#[test]
fn validation_messages_name_the_offender() {
    let dup = "
name: dup
nodes:
  - id: a
    title: A
    instructions: a
  - id: a
    title: A
    instructions: a
";
    assert!(matches!(parse_spec(dup), Err(AfgError::Validation(m)) if m == "duplicate node id: a"));
    let dangling = "
name: d
nodes:
  - id: a
    title: A
    instructions: a
    dependsOn: [ghost]
";
    assert!(matches!(
        parse_spec(dangling),
        Err(AfgError::Validation(m)) if m == "node 'a' depends on unknown node 'ghost'"
    ));
    assert!(matches!(
        parse_spec("name: empty\nnodes: []\n"),
        Err(AfgError::Validation(m)) if m == "workflow has no nodes"
    ));
}

#[test]
fn a_self_dependency_is_a_cycle() {
    let yaml = "
name: selfish
nodes:
  - id: a
    title: A
    instructions: a
    dependsOn: [a]
";
    assert!(matches!(
        parse_spec(yaml),
        Err(AfgError::Validation(m)) if m.starts_with("cycle detected involving node")
    ));
}

#[test]
fn a_diamond_is_acyclic_and_runs_in_declaration_order() {
    let yaml = "
name: diamond
nodes:
  - id: top
    title: T
    instructions: t
  - id: left
    title: L
    instructions: l
    dependsOn: [top]
  - id: right
    title: R
    instructions: r
    dependsOn: [top]
  - id: bottom
    title: B
    instructions: b
    dependsOn: [left, right]
";
    let spec = parse_spec(yaml).unwrap();
    let done = vec!["top".to_owned()];
    assert_eq!(pick_next_node(&spec, &done).unwrap().id, "left");
    let done = vec!["top".to_owned(), "left".to_owned()];
    assert_eq!(pick_next_node(&spec, &done).unwrap().id, "right");
    let done = vec!["top".to_owned(), "left".to_owned(), "right".to_owned()];
    assert_eq!(pick_next_node(&spec, &done).unwrap().id, "bottom");
}
