use fenn::error::StatusError;
use fenn::ledger::{
    apply_listing, get_repo_git_status, repo_root, status_entries, update_git_status_map,
    CommandOutcome,
};
use fenn::status::{StatusCode, StatusMap};

fn ran(stdout: &str) -> CommandOutcome {
    CommandOutcome::Ran { success: true, stdout: stdout.to_string(), stderr: String::new() }
}

fn failed(stderr: &str) -> CommandOutcome {
    CommandOutcome::Ran { success: false, stdout: String::new(), stderr: stderr.to_string() }
}

fn not_run(detail: &str) -> CommandOutcome {
    CommandOutcome::NotRun { detail: detail.to_string() }
}

fn unavailable(r: Result<(String, StatusMap), StatusError>) -> String {
    match r {
        Err(StatusError::LedgerUnavailable { detail }) => detail,
        _ => panic!("expected LedgerUnavailable"),
    }
}

#[test]
fn scan_overrides_committed_seed() {
    let map = update_git_status_map("a.txt\n", " M a.txt\n", "/repo").unwrap();
    assert_eq!(map.get("a.txt"), Some(&StatusCode::Modified));
    assert_eq!(map.len(), 1);
}

#[test]
fn tracked_and_clean_paths_stay_pushed() {
    let map = update_git_status_map("a.txt\nsrc/b.rs\nc.md\n", " M a.txt\n", "/repo").unwrap();
    assert_eq!(map.get("src/b.rs"), Some(&StatusCode::Pushed));
    assert_eq!(map.get("c.md"), Some(&StatusCode::Pushed));
    assert_eq!(map.get("a.txt"), Some(&StatusCode::Modified));
    assert_eq!(map.len(), 3);
}

#[test]
fn paths_only_in_scan_are_added() {
    let map = update_git_status_map("a.txt\n", "?? new.txt\nA  staged.txt\n", "/repo").unwrap();
    assert_eq!(map.get("new.txt"), Some(&StatusCode::Untracked));
    assert_eq!(map.get("staged.txt"), Some(&StatusCode::Staged));
    assert_eq!(map.get("a.txt"), Some(&StatusCode::Pushed));
    assert_eq!(map.get("absent"), None);
}

#[test]
fn every_code_of_the_table_is_applied() {
    let scan = "?? u\nM  s\n M m\n D d\nMM p\nAM q\nUU c\nAA e\nDD f\nRM o\n";
    let map = update_git_status_map("", scan, "").unwrap();
    assert_eq!(map.get("u"), Some(&StatusCode::Untracked));
    assert_eq!(map.get("s"), Some(&StatusCode::Staged));
    assert_eq!(map.get("m"), Some(&StatusCode::Modified));
    assert_eq!(map.get("d"), Some(&StatusCode::Deleted));
    assert_eq!(map.get("p"), Some(&StatusCode::PartiallyStaged));
    assert_eq!(map.get("q"), Some(&StatusCode::PartiallyStaged));
    assert_eq!(map.get("c"), Some(&StatusCode::Conflict));
    assert_eq!(map.get("e"), Some(&StatusCode::Conflict));
    assert_eq!(map.get("f"), Some(&StatusCode::Conflict));
    assert_eq!(map.get("o"), Some(&StatusCode::Other));
}

#[test]
fn the_last_line_for_a_path_wins() {
    let map = update_git_status_map("", " M a\n D a\n", "/repo").unwrap();
    assert_eq!(map.get("a"), Some(&StatusCode::Deleted));
}

#[test]
fn quotes_and_white_space_are_stripped() {
    let map = update_git_status_map("  \"with space.txt\"  \n", "?? \"b c.txt\"\n", "/repo").unwrap();
    assert_eq!(map.get("with space.txt"), Some(&StatusCode::Pushed));
    assert_eq!(map.get("b c.txt"), Some(&StatusCode::Untracked));
}

#[test]
fn carriage_returns_end_lines_too() {
    let map = update_git_status_map("a.txt\r\nb.txt\r\n", " M a.txt\r\n", "/repo").unwrap();
    assert_eq!(map.get("a.txt"), Some(&StatusCode::Modified));
    assert_eq!(map.get("b.txt"), Some(&StatusCode::Pushed));
    assert_eq!(map.len(), 2);
}

#[test]
fn a_last_line_without_line_feed_counts() {
    let map = update_git_status_map("a.txt\nb.txt", "?? c.txt", "/repo").unwrap();
    assert_eq!(map.keys(), vec!["a.txt", "b.txt", "c.txt"]);
}

#[test]
fn short_and_empty_lines_record_nothing() {
    let map = update_git_status_map("\n\n   \n", "\nM\n??\n M \n", "/repo").unwrap();
    assert_eq!(map.len(), 0);
}

#[test]
fn separators_are_normalised_in_keys() {
    let map = update_git_status_map("dir\\sub\\f.txt\n", " M dir\\x.txt\n", "/repo").unwrap();
    assert_eq!(map.get("dir/sub/f.txt"), Some(&StatusCode::Pushed));
    assert_eq!(map.get("dir/x.txt"), Some(&StatusCode::Modified));
}

#[test]
fn a_listed_path_outside_the_root_fails() {
    match update_git_status_map("../x\n", "", "/repo") {
        Err(StatusError::PathOutsideRoot { path, root }) => {
            assert_eq!(path, "../x");
            assert_eq!(root, "/repo");
        }
        _ => panic!("expected PathOutsideRoot"),
    }
    assert!(matches!(
        update_git_status_map("a\n", " M /abs/y\n", "repo"),
        Err(StatusError::PathOutsideRoot { .. })
    ));
}

#[test]
fn apply_listing_lays_lines_over_a_map() {
    let mut seed = StatusMap::new();
    seed.insert("keep".to_string(), StatusCode::Pushed);
    seed.insert("a".to_string(), StatusCode::Pushed);
    let map = apply_listing(seed, "D  a\n", "/repo", true).unwrap();
    assert_eq!(map.get("a"), Some(&StatusCode::Staged));
    assert_eq!(map.get("keep"), Some(&StatusCode::Pushed));
}

#[test]
fn status_entries_come_in_path_order() {
    let map = update_git_status_map("b\na\nc\n", " M c\n", "/repo").unwrap();
    let entries = status_entries(&map);
    let got: Vec<(String, StatusCode)> = entries.into_iter().map(|e| (e.path, e.status)).collect();
    assert_eq!(
        got,
        vec![
            ("a".to_string(), StatusCode::Pushed),
            ("b".to_string(), StatusCode::Pushed),
            ("c".to_string(), StatusCode::Modified),
        ]
    );
}

#[test]
fn repo_status_from_three_commands() {
    let (root, map) =
        get_repo_git_status(&ran("/home/u/repo\n"), &ran("a.txt\n"), &ran(" M a.txt\n?? b\n")).unwrap();
    assert_eq!(root, "/home/u/repo");
    assert_eq!(map.get("a.txt"), Some(&StatusCode::Modified));
    assert_eq!(map.get("b"), Some(&StatusCode::Untracked));
}

#[test]
fn repo_status_not_a_repository() {
    assert_eq!(
        unavailable(get_repo_git_status(&failed("fatal"), &ran(""), &ran(""))),
        "Not a git repository"
    );
}

#[test]
fn repo_status_command_not_started() {
    assert_eq!(
        unavailable(get_repo_git_status(&not_run("no such file"), &ran(""), &ran(""))),
        "Failed to find git repository: no such file"
    );
    assert_eq!(
        unavailable(get_repo_git_status(&ran("/r"), &not_run("boom"), &ran(""))),
        "Failed to execute git ls-tree: boom"
    );
    assert_eq!(
        unavailable(get_repo_git_status(&ran("/r"), &ran(""), &not_run("bang"))),
        "Failed to execute git status: bang"
    );
}

#[test]
fn repo_status_empty_root() {
    assert_eq!(
        unavailable(get_repo_git_status(&ran("  \n"), &ran(""), &ran(""))),
        "Invalid git repository root"
    );
}

#[test]
fn repo_status_listing_or_scan_failed() {
    assert_eq!(
        unavailable(get_repo_git_status(&ran("/r\n"), &failed("x"), &ran(""))),
        "Git ls-tree command failed"
    );
    assert_eq!(
        unavailable(get_repo_git_status(&ran("/r\n"), &ran(""), &failed("x"))),
        "Git status command failed"
    );
}

#[test]
fn repo_status_first_failure_is_reported() {
    assert_eq!(
        unavailable(get_repo_git_status(&failed(""), &failed(""), &not_run("z"))),
        "Not a git repository"
    );
}

#[test]
fn repo_root_is_what_the_command_printed() {
    assert_eq!(repo_root(&ran("  /home/u/repo \r\n")).unwrap(), "/home/u/repo");
    assert!(matches!(
        repo_root(&ran("\n")),
        Err(StatusError::LedgerUnavailable { detail }) if detail == "Invalid git repository root"
    ));
    assert!(matches!(
        repo_root(&failed("fatal: not a git repository")),
        Err(StatusError::LedgerUnavailable { detail }) if detail == "Not a git repository"
    ));
}
