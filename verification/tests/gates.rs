use atlas::afg::gates::{judge_shell, pattern_check, run_schema, schema_verdict, shell_gate_will_pass, short, truncate, GateOutcome, SchemaCheck};
use atlas::afg::runtime::{admit_task_result, admit_task_result_for, build_retry_feedback, next_step, node_by_id, resolve_project_path, NextStep};
use atlas::afg::error::AfgError;
use atlas::afg::model::RunStatus;
use atlas::afg::spec::{WorkflowNodeSpec, WorkflowSpec};

fn fail(o: &GateOutcome) -> (&str, Option<&str>) {
    match o {
        GateOutcome::Fail { reason, detail } => (reason.as_str(), detail.as_deref()),
        GateOutcome::Pass { summary } => panic!("passed: {summary}"),
    }
}

fn pass(o: &GateOutcome) -> &str {
    match o {
        GateOutcome::Pass { summary } => summary.as_str(),
        GateOutcome::Fail { reason, .. } => panic!("failed: {reason}"),
    }
}

#[test]
fn a_matching_exit_code_passes_with_a_summary() {
    let o = judge_shell("cargo test", 0, None, Some(0), "ok");
    assert_eq!(pass(&o), "shell 'cargo test' exit 0");
}

#[test]
fn an_unexpected_exit_code_fails_with_the_output() {
    let o = judge_shell("false", 0, None, Some(1), "boom");
    assert_eq!(fail(&o), ("shell: exit 1 (expected 0)", Some("boom")));
}

#[test]
fn a_signal_counts_as_exit_minus_one() {
    let o = judge_shell("sleep 100", 0, None, None, "");
    assert_eq!(fail(&o).0, "shell: exit -1 (expected 0)");
}

#[test]
fn output_must_match_the_pattern() {
    let ok = judge_shell("t", 0, Some("passed"), Some(0), "3 passed");
    assert_eq!(pass(&ok), "shell 't' exit 0");
    let bad = judge_shell("t", 0, Some("^passed$"), Some(0), "3 passed");
    assert_eq!(fail(&bad), ("shell: stdout did not match regex '^passed$'", Some("3 passed")));
}

#[test]
fn a_pattern_that_is_not_a_regex_refuses_the_gate() {
    let refused = pattern_check(Some("(unclosed")).expect("an invalid regex was accepted");
    assert_eq!(fail(&refused).0, "shell.stdout_matches is not a valid regex");
    assert!(fail(&refused).1.is_some());
    assert!(pattern_check(Some("a+")).is_none());
    assert!(pattern_check(None).is_none());
    let judged = judge_shell("t", 0, Some("(unclosed"), Some(0), "x");
    assert_eq!(fail(&judged).0, "shell.stdout_matches is not a valid regex");
}

#[test]
fn a_long_command_is_cut_in_the_summary() {
    let cmd = "x".repeat(100);
    let o = judge_shell(&cmd, 0, None, Some(0), "");
    assert_eq!(pass(&o), format!("shell '{}…' exit 0", "x".repeat(60)));
    assert_eq!(short("abc", 60), "abc");
}

#[test]
fn truncation_keeps_whole_characters_and_counts_what_it_dropped() {
    assert_eq!(truncate("short", 10), "short");
    assert_eq!(truncate("abcdef", 4), "abcd\n… (+2 bytes truncated)");
    // "é" is two bytes: three of them do not fit in five.
    assert_eq!(truncate("ééé", 5), "éé\n… (+2 bytes truncated)");
}

#[test]
fn a_schema_gate_reports_what_the_validator_said() {
    let schema: serde_json::Value = serde_json::from_str(r#"{"type": "integer"}"#).unwrap();
    let ok = run_schema(&schema, Some(&serde_json::Value::from(3)));
    assert_eq!(pass(&ok), "schema-validate ok");
    let bad = run_schema(&schema, Some(&serde_json::Value::from("three")));
    assert!(fail(&bad).0.starts_with("schema-validate: "));
    assert!(fail(&bad).1.is_some());
    let none = run_schema(&schema, None);
    assert_eq!(fail(&none), ("schema-validate: task_result had no payload to validate", None));
}

#[test]
fn schema_verdicts_are_worded_per_case() {
    assert_eq!(pass(&schema_verdict(SchemaCheck::Valid)), "schema-validate ok");
    assert_eq!(
        fail(&schema_verdict(SchemaCheck::InvalidSchema("bad".to_owned()))),
        ("schema-validate: invalid schema: bad", None)
    );
    let long = "y".repeat(300);
    let o = schema_verdict(SchemaCheck::Invalid(long.clone()));
    assert_eq!(fail(&o).0, format!("schema-validate: {}…", "y".repeat(200)));
    assert_eq!(fail(&o).1, Some(long.as_str()));
}

#[test]
fn retry_feedback_names_the_attempt_and_the_details() {
    assert_eq!(
        build_retry_feedback("tests failed", Some("3 failures"), 2, 3),
        "Gate failed on attempt 2/3. Reason: tests failed\n\nDetails:\n3 failures\n\nTry again — address the failure above before sending the next task_result."
    );
    assert_eq!(
        build_retry_feedback("r", Some(""), 1, 1),
        "Gate failed on attempt 1/1. Reason: r\n\nTry again — address the failure above before sending the next task_result."
    );
}

#[test]
fn a_project_path_may_not_escape_the_root() {
    assert!(resolve_project_path("/repo", "workflows/a.yaml").is_ok());
    assert!(matches!(resolve_project_path("/repo", "../etc/passwd"), Err(AfgError::PathOutsideProject)));
    assert!(matches!(resolve_project_path("/repo", "/etc/passwd"), Err(AfgError::PathOutsideProject)));
}

#[test]
fn only_the_dispatched_session_may_answer_the_current_node() {
    assert!(admit_task_result(Some("s1"), Some("s1"), RunStatus::Running, Some("n"), "n").is_ok());
    assert!(matches!(
        admit_task_result(Some("s1"), Some("s2"), RunStatus::Running, Some("n"), "n"),
        Err(AfgError::NotFound("run"))
    ));
    assert!(matches!(
        admit_task_result(None, Some("s1"), RunStatus::Running, Some("n"), "n"),
        Err(AfgError::NotFound("run"))
    ));
    assert!(matches!(
        admit_task_result(Some("s1"), None, RunStatus::Running, Some("n"), "n"),
        Err(AfgError::NotFound("run"))
    ));
    match admit_task_result(Some("s1"), Some("s1"), RunStatus::Running, Some("n"), "m") {
        Err(AfgError::Validation(m)) => assert_eq!(
            m,
            "this run is on node 'n', not 'm' — a result may only answer the node that was dispatched"
        ),
        other => panic!("{other:?}"),
    }
    match admit_task_result(Some("s1"), Some("s1"), RunStatus::Completed, Some("n"), "n") {
        Err(AfgError::Validation(m)) => assert_eq!(m, "run is completed, not running — task_result ignored"),
        other => panic!("{other:?}"),
    }
}

fn node(id: &str, deps: &[&str], max_retries: u32) -> WorkflowNodeSpec {
    WorkflowNodeSpec {
        id: id.to_owned(),
        title: id.to_uppercase(),
        instructions: format!("do {id}"),
        depends_on: deps.iter().map(|d| d.to_string()).collect(),
        agent_kind: None,
        acceptance_criteria: Vec::new(),
        max_retries,
        allowed_tools: Vec::new(),
    }
}

#[test]
fn a_failure_is_retried_until_the_retries_are_spent() {
    let spec = WorkflowSpec {
        name: "w".to_owned(),
        version: 1,
        description: None,
        nodes: vec![node("a", &[], 2), node("b", &["a"], 2)],
    };
    match next_step(&spec, &spec.nodes[0], Some(("bad", None)), 0, &Vec::new()) {
        NextStep::Retry { attempt, feedback } => {
            assert_eq!(attempt, 1);
            assert!(feedback.starts_with("Gate failed on attempt 1/2. Reason: bad"));
        }
        _ => panic!("expected a retry"),
    }
    match next_step(&spec, &spec.nodes[0], Some(("bad", None)), 2, &Vec::new()) {
        NextStep::Fail { reason } => assert_eq!(reason, "max_retries (2) exhausted: bad"),
        _ => panic!("expected the run to fail"),
    }
}

#[test]
fn a_pass_advances_to_the_next_runnable_node_or_completes() {
    let spec = WorkflowSpec {
        name: "w".to_owned(),
        version: 1,
        description: None,
        nodes: vec![node("a", &[], 3), node("b", &["a"], 3)],
    };
    match next_step(&spec, &spec.nodes[0], None, 0, &Vec::new()) {
        NextStep::Advance { to } => assert_eq!(to, "b"),
        _ => panic!("expected to advance"),
    }
    assert!(matches!(
        next_step(&spec, &spec.nodes[1], None, 0, &vec!["a".to_owned()]),
        NextStep::Complete
    ));
}

#[test]
fn a_node_is_found_by_its_id() {
    let spec = WorkflowSpec {
        name: "w".to_owned(),
        version: 1,
        description: None,
        nodes: vec![node("a", &[], 0), node("b", &["a"], 1)],
    };
    assert_eq!(node_by_id(&spec, "b").map(|n| n.max_retries), Some(1));
    assert_eq!(node_by_id(&spec, "a").map(|n| n.title.as_str()), Some("A"));
    assert!(node_by_id(&spec, "c").is_none());
}

#[test]
fn a_missing_run_reads_as_one_the_caller_may_not_answer() {
    let missing = admit_task_result_for(None, Some("s1"), "a");
    assert_eq!(missing, Err(AfgError::NotFound("run")));
    let foreign = admit_task_result_for(
        Some((Some("s2"), RunStatus::Running, Some("a"))),
        Some("s1"),
        "a",
    );
    assert_eq!(foreign, missing);
    assert_eq!(
        admit_task_result_for(Some((Some("s1"), RunStatus::Running, Some("a"))), Some("s1"), "a"),
        Ok(())
    );
}

#[test]
fn a_failing_command_is_judged_whatever_its_characters() {
    // Byte 60 falls inside an `é`; a failure never cuts the command.
    let cmd = format!("a{}", "é".repeat(40));
    assert!(!shell_gate_will_pass(0, None, Some(2), "boom"));
    let o = judge_shell(&cmd, 0, None, Some(2), "boom");
    assert_eq!(fail(&o), ("shell: exit 2 (expected 0)", Some("boom")));
    let o = judge_shell(&cmd, 0, Some("^ok$"), Some(0), "nope");
    assert_eq!(fail(&o).0, "shell: stdout did not match regex '^ok$'");
    assert!(shell_gate_will_pass(0, Some("ok"), Some(0), "ok"));
    assert!(!shell_gate_will_pass(0, Some("(unclosed"), Some(0), "ok"));
}
