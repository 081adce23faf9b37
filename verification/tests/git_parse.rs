use atlas::graph::git::{changed_files, parse_name_status, parse_status, ChangeKind};

#[test]
fn a_modified_and_an_added_file_are_told_apart() {
    let out = " M src/a.rs\0A  src/b.rs\0";
    let changes = parse_status(out);
    assert_eq!(changes.len(), 2);
    assert_eq!(changes[0].path, "src/a.rs");
    assert_eq!(changes[0].kind, ChangeKind::Modified);
    assert_eq!(changes[1].path, "src/b.rs");
    assert_eq!(changes[1].kind, ChangeKind::Added);
}

#[test]
fn an_untracked_file_is_reported_as_such() {
    let changes = parse_status("?? src/new.rs\0");
    assert_eq!(changes[0].kind, ChangeKind::Untracked);
    assert_eq!(changes[0].path, "src/new.rs");
}

#[test]
fn a_rename_consumes_its_old_path_rather_than_reporting_it() {
    let changes = parse_status("R  src/new.rs\0src/old.rs\0 M src/other.rs\0");
    assert_eq!(changes.len(), 2, "{changes:?}");
    assert_eq!(changes[0].kind, ChangeKind::Renamed);
    assert_eq!(changes[0].path, "src/new.rs");
    assert_eq!(changes[0].renamed_from.as_deref(), Some("src/old.rs"));
    assert_eq!(changes[1].path, "src/other.rs");
}

#[test]
fn a_path_containing_a_space_survives() {
    let changes = parse_status(" M src/a file.rs\0");
    assert_eq!(changes[0].path, "src/a file.rs");
}

#[test]
fn a_deletion_is_recognised_from_either_column() {
    assert_eq!(parse_status("D  a.rs\0")[0].kind, ChangeKind::Deleted);
    assert_eq!(parse_status(" D a.rs\0")[0].kind, ChangeKind::Deleted);
}

#[test]
fn name_status_pairs_a_status_with_the_path_that_follows_it() {
    let changes = parse_name_status("M\0src/a.rs\0A\0src/b.rs\0D\0src/c.rs\0");
    assert_eq!(changes.len(), 3);
    assert_eq!(changes[0].kind, ChangeKind::Modified);
    assert_eq!(changes[1].kind, ChangeKind::Added);
    assert_eq!(changes[2].kind, ChangeKind::Deleted);
    assert_eq!(changes[2].path, "src/c.rs");
}

#[test]
fn name_status_rename_takes_two_paths_and_reports_the_new_one() {
    let changes = parse_name_status("R100\0src/old.rs\0src/new.rs\0M\0src/z.rs\0");
    assert_eq!(changes.len(), 2, "{changes:?}");
    assert_eq!(changes[0].path, "src/new.rs");
    assert_eq!(changes[0].renamed_from.as_deref(), Some("src/old.rs"));
    assert_eq!(changes[1].path, "src/z.rs");
}

#[test]
fn a_truncated_record_is_dropped_rather_than_panicking() {
    assert!(parse_status("M\0").is_empty());
    assert!(parse_name_status("R100\0only-one-path\0").is_empty());
}

#[test]
fn a_copy_is_reported_as_a_rename_with_its_source() {
    let changes = parse_name_status("C75\0src/a.rs\0src/b.rs\0");
    assert_eq!(changes.len(), 1);
    assert_eq!(changes[0].kind, ChangeKind::Renamed);
    assert_eq!(changes[0].path, "src/b.rs");
    assert_eq!(changes[0].renamed_from.as_deref(), Some("src/a.rs"));
}

#[test]
fn a_staged_rename_with_no_old_path_field_has_no_source() {
    let changes = parse_status("R  src/new.rs\0");
    assert_eq!(changes.len(), 1);
    assert_eq!(changes[0].kind, ChangeKind::Renamed);
    assert_eq!(changes[0].renamed_from, None);
}

#[test]
fn leading_space_before_a_path_is_not_part_of_it() {
    let changes = parse_status("A    spaced.rs\0");
    assert_eq!(changes[0].path, "spaced.rs");
}

#[test]
fn the_output_is_read_as_status_or_as_a_diff_by_whether_a_ref_was_given() {
    let status = changed_files(None, " M src/a.rs\0").unwrap();
    assert_eq!(status.len(), 1);
    assert_eq!(status[0].path, "src/a.rs");
    assert_eq!(status[0].kind, ChangeKind::Modified);
    let diff = changed_files(Some("main"), "A\0src/new.rs\0").unwrap();
    assert_eq!(diff.len(), 1);
    assert_eq!(diff[0].path, "src/new.rs");
    assert_eq!(diff[0].kind, ChangeKind::Added);
    // A record whose status bytes end inside a character cannot be split.
    assert!(changed_files(None, "aé path\0").is_none());
}

#[test]
fn the_index_column_decides_when_it_is_set() {
    let c = parse_status("MD a.rs\0");
    assert_eq!(c.len(), 1);
    assert_eq!(c[0].path, "a.rs");
    assert_eq!(c[0].kind, ChangeKind::Modified);
    assert_eq!(c[0].renamed_from, None);
    assert_eq!(parse_status("AM a.rs\0")[0].kind, ChangeKind::Added);
    assert_eq!(parse_status("AD a.rs\0")[0].kind, ChangeKind::Added);
    assert_eq!(parse_status("DA a.rs\0")[0].kind, ChangeKind::Deleted);
    assert_eq!(parse_status(" A a.rs\0")[0].kind, ChangeKind::Added);
    let r = parse_status("RM new.rs\0old.rs\0");
    assert_eq!(r.len(), 1);
    assert_eq!(r[0].kind, ChangeKind::Renamed);
    assert_eq!(r[0].renamed_from.as_deref(), Some("old.rs"));
}
