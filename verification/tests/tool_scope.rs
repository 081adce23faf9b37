use atlas::afg::tool_scope::ToolScope;

#[test]
fn saying_nothing_permits_everything() {
    let scope = ToolScope::default();
    assert!(scope.is_unrestricted());
    assert!(scope.permits("terminal.write"));
    assert!(scope.permits("tracker.close_issue"));
}

#[test]
fn an_exact_name_permits_only_itself() {
    let scope = ToolScope::new(vec!["notes.write".to_owned()]);
    assert!(scope.permits("notes.write"));
    assert!(!scope.permits("notes.read"));
    assert!(!scope.permits("tracker.close_issue"));
}

#[test]
fn a_family_wildcard_covers_the_family_and_nothing_else() {
    let scope = ToolScope::new(vec!["tracker.*".to_owned()]);
    assert!(scope.permits("tracker.list_issues"));
    assert!(scope.permits("tracker.close_issue"));
    assert!(!scope.permits("terminal.write"));
}

#[test]
fn a_wildcard_does_not_leak_past_its_dot() {
    let scope = ToolScope::new(vec!["tracker.*".to_owned()]);
    assert!(!scope.permits("trackerthing.foo"));
    assert!(!scope.permits("tracker"));
}

#[test]
fn reporting_a_result_is_always_permitted() {
    let scope = ToolScope::new(vec!["notes.read".to_owned()]);
    assert!(scope.permits("afg.submit_task_result"));
    assert!(scope.permits("afg.get_run"));
    assert!(!scope.permits("afg.start_run"));
}

#[test]
fn several_patterns_are_a_union() {
    let scope = ToolScope::new(vec!["tracker.*".to_owned(), "notes.write".to_owned()]);
    assert!(scope.permits("tracker.get_issue"));
    assert!(scope.permits("notes.write"));
    assert!(!scope.permits("notes.delete"));
}

#[test]
fn a_scope_reports_the_patterns_it_was_given() {
    let scope = ToolScope::new(vec!["a.*".to_owned(), "b".to_owned()]);
    assert!(!scope.is_unrestricted());
    assert_eq!(scope.patterns(), &["a.*".to_owned(), "b".to_owned()][..]);
}
