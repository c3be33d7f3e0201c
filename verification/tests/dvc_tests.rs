use fenn::dvc::{artifact_status_map, dvc_diff, script_name};
use fenn::error::StatusError;
use fenn::ledger::CommandOutcome;
use fenn::status::{StatusCode, StatusMap};

fn ran(stdout: &str) -> CommandOutcome {
    CommandOutcome::Ran { success: true, stdout: stdout.to_string(), stderr: String::new() }
}

fn diff(report: &str) -> Result<StatusMap, StatusError> {
    dvc_diff(&ran(report), "/repo")
}

fn unavailable(r: Result<StatusMap, StatusError>) -> String {
    match r {
        Err(StatusError::ArtifactToolUnavailable { detail }) => detail,
        _ => panic!("expected ArtifactToolUnavailable"),
    }
}

#[test]
fn each_category_gives_its_status() {
    let report = r#"{
        "added": [{"path": "a.bin"}],
        "deleted": [{"path": "d.bin"}],
        "modified": [{"path": "data/m.bin"}],
        "renamed": [{"path": {"old": "x"}, "path_old": "old.bin"}],
        "not in cache": [{"path": "n.bin"}]
    }"#
    .replace(r#"{"path": {"old": "x"}, "path_old": "old.bin"}"#, r#"{"path": "new.bin", "path_old": "old.bin"}"#);
    let map = diff(&report).unwrap();
    assert_eq!(map.get("a.bin"), Some(&StatusCode::Added));
    assert_eq!(map.get("d.bin"), Some(&StatusCode::Deleted));
    assert_eq!(map.get("data/m.bin"), Some(&StatusCode::Modified));
    assert_eq!(map.get("new.bin"), Some(&StatusCode::Renamed));
    assert_eq!(map.get("old.bin"), None);
    assert_eq!(map.get("n.bin"), Some(&StatusCode::NotInCache));
    assert_eq!(map.len(), 5);
}

#[test]
fn report_without_changes_is_empty() {
    assert_eq!(diff("{}").unwrap().len(), 0);
    let all_empty = r#"{"added": [], "deleted": [], "modified": [], "renamed": [], "not in cache": []}"#;
    assert_eq!(diff(all_empty).unwrap().len(), 0);
}

#[test]
fn paths_are_normalised() {
    let map = diff(r#"{"modified": [{"path": "data\\sub\\x.bin"}, {"path": "./y//z.bin"}, {"path": "/repo/w.bin"}]}"#)
        .unwrap();
    assert_eq!(map.keys(), vec!["data/sub/x.bin", "w.bin", "y/z.bin"]);
}

#[test]
fn later_categories_overwrite_earlier_ones() {
    let map = diff(r#"{"added": [{"path": "p"}], "modified": [{"path": "p"}]}"#).unwrap();
    assert_eq!(map.get("p"), Some(&StatusCode::Modified));
    let map = diff(r#"{"not in cache": [{"path": "p"}], "added": [{"path": "p"}]}"#).unwrap();
    assert_eq!(map.get("p"), Some(&StatusCode::NotInCache));
}

#[test]
fn other_members_are_passed_over() {
    let map = diff(r#"{"extra": 5, "added": [{"path": "a", "hash": "abc", "size": 3}]}"#).unwrap();
    assert_eq!(map.keys(), vec!["a"]);
}

#[test]
fn text_that_is_no_json_fails() {
    let detail = unavailable(diff("not json"));
    assert!(detail.starts_with("Failed to parse dvc diff JSON: "));
    assert!(detail.len() > "Failed to parse dvc diff JSON: ".len());
    unavailable(diff(""));
    unavailable(diff("{\"added\": ["));
}

#[test]
fn report_that_is_no_object_fails() {
    assert_eq!(unavailable(diff("[]")), "dvc diff report is not an object");
    assert_eq!(unavailable(diff("null")), "dvc diff report is not an object");
    assert_eq!(unavailable(diff("\"added\"")), "dvc diff report is not an object");
}

#[test]
fn category_that_is_no_array_fails() {
    assert_eq!(unavailable(diff(r#"{"added": {"path": "a"}}"#)), "dvc diff category is not an array");
    assert_eq!(unavailable(diff(r#"{"not in cache": "x"}"#)), "dvc diff category is not an array");
}

#[test]
fn entry_without_path_fails() {
    for report in [
        r#"{"added": [{"file": "a"}]}"#,
        r#"{"added": ["a"]}"#,
        r#"{"deleted": [{"path": 3}]}"#,
        r#"{"modified": [{"path": "ok"}, {"path": null}]}"#,
        r#"{"renamed": [{"path_old": "x"}]}"#,
    ] {
        assert_eq!(unavailable(diff(report)), "dvc diff entry has no path");
    }
}

#[test]
fn path_outside_root_fails() {
    match diff(r#"{"added": [{"path": "../x"}]}"#) {
        Err(StatusError::PathOutsideRoot { path, root }) => {
            assert_eq!(path, "../x");
            assert_eq!(root, "/repo");
        }
        _ => panic!("expected PathOutsideRoot"),
    }
}

#[test]
fn first_failure_in_category_order_is_reported() {
    let report = r#"{"modified": 1, "added": [{"nopath": 1}]}"#;
    assert_eq!(unavailable(diff(report)), "dvc diff entry has no path");
}

#[test]
fn command_that_did_not_start_fails() {
    let r = dvc_diff(&CommandOutcome::NotRun { detail: "missing".to_string() }, "/repo");
    assert_eq!(unavailable(r), "Failed to run dvc_diff_script.exe: missing");
}

#[test]
fn command_that_failed_reports_its_errors() {
    let r = dvc_diff(
        &CommandOutcome::Ran { success: false, stdout: "{}".to_string(), stderr: "no dvc here".to_string() },
        "/repo",
    );
    assert_eq!(unavailable(r), "no dvc here");
}

#[test]
fn parsed_report_is_read_the_same_way() {
    let value: serde_json::Value =
        serde_json::from_str(r#"{"deleted": [{"path": "gone.bin"}], "added": [{"path": "dir/new.bin"}]}"#).unwrap();
    let map = artifact_status_map(&value, "/repo").unwrap();
    assert_eq!(map.get("gone.bin"), Some(&StatusCode::Deleted));
    assert_eq!(map.get("dir/new.bin"), Some(&StatusCode::Added));
    let not_object: serde_json::Value = serde_json::from_str("[1, 2]").unwrap();
    assert!(matches!(
        artifact_status_map(&not_object, "/repo"),
        Err(StatusError::ArtifactToolUnavailable { .. })
    ));
}

#[test]
fn member_named_by_a_string_is_no_path() {
    let value: serde_json::Value = serde_json::from_str(r#"{"added": [{"path": ["a"]}]}"#).unwrap();
    assert!(matches!(
        artifact_status_map(&value, "/repo"),
        Err(StatusError::ArtifactToolUnavailable { .. })
    ));
}

#[test]
fn script_names_per_platform() {
    assert_eq!(script_name("dvc_diff_script.exe", false), "dvc_diff_script.bin");
    assert_eq!(script_name("dvc_diff_script.exe", true), "dvc_diff_script.exe");
    assert_eq!(script_name("dvc_add_script.bin", true), "dvc_add_script.exe");
    assert_eq!(script_name("dvc_add_script.bin", false), "dvc_add_script.bin");
    assert_eq!(script_name("tool", false), "tool.bin");
    assert_eq!(script_name("tool", true), "tool.exe");
    assert_eq!(script_name("a.exe.b.exe", false), "a.bin.b.bin");
    assert_eq!(script_name("a.exe.b.bin", true), "a.exe.b.exe");
    assert_eq!(script_name("a.exe.b", false), "a.exe.b.bin");
    assert_eq!(script_name("", true), ".exe");
    for name in ["x.exe", "y.bin", "z", "a.exe.exe", ".exe", "exe"] {
        let expected = if name.ends_with(".exe") {
            name.replace(".exe", ".bin")
        } else if name.ends_with(".bin") {
            name.replace(".bin", ".bin")
        } else {
            format!("{}{}", name, ".bin")
        };
        assert_eq!(script_name(name, false), expected);
    }
}
