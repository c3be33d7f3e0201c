use fenn::error::StatusError;
use fenn::file::{
    collect_known, default_ignore_prefixes, entry_record, file_status, get_file_tree_structure,
    get_files_status, get_git_status_for_path, list_file_entries, FileEntry, WalkEntry, WalkEvent,
    WalkFailureKind,
};
use fenn::ledger::CommandOutcome;
use fenn::path_map::PathSet;
use fenn::status::{StatusCode, StatusMap};

fn file(path: &str, size: u64) -> WalkEvent {
    WalkEvent::Found(WalkEntry { path: path.to_string(), size, is_directory: false, is_symlink: false })
}

fn dir(path: &str) -> WalkEvent {
    WalkEvent::Found(WalkEntry { path: path.to_string(), size: 4096, is_directory: true, is_symlink: false })
}

fn link(path: &str) -> WalkEvent {
    WalkEvent::Found(WalkEntry { path: path.to_string(), size: 0, is_directory: false, is_symlink: true })
}

fn map(entries: &[(&str, StatusCode)]) -> StatusMap {
    let mut m = StatusMap::new();
    for (k, v) in entries {
        m.insert(k.to_string(), *v);
    }
    m
}

fn names(list: &[&str]) -> Vec<String> {
    list.iter().map(|s| s.to_string()).collect()
}

fn row(e: &FileEntry) -> (String, u64, bool, bool, StatusCode) {
    (e.path.clone(), e.size, e.is_directory, e.has_dvc_file, e.git_status)
}

fn rows(list: &[FileEntry]) -> Vec<(String, u64, bool, bool, StatusCode)> {
    list.iter().map(row).collect()
}

fn paths(list: &[FileEntry]) -> Vec<String> {
    list.iter().map(|e| e.path.clone()).collect()
}

fn reconcile(events: &Vec<WalkEvent>, ledger: &StatusMap, artifacts: &StatusMap, ignore: &[&str]) -> Vec<FileEntry> {
    list_file_entries(events, "/repo", "/repo", ledger, artifacts, &names(ignore)).unwrap()
}

#[test]
fn artifact_status_overrides_ledger_status_of_sidecar() {
    let events = vec![dir("/repo"), file("/repo/data.bin", 10), file("/repo/data.bin.dvc", 3)];
    let ledger = map(&[("data.bin.dvc", StatusCode::Staged)]);
    let artifacts = map(&[("data.bin", StatusCode::Modified)]);
    let out = reconcile(&events, &ledger, &artifacts, &[]);
    assert_eq!(
        rows(&out),
        vec![
            ("".to_string(), 4096, true, false, StatusCode::Untracked),
            ("data.bin".to_string(), 10, false, true, StatusCode::Modified),
        ]
    );
}

#[test]
fn sidecar_status_applies_without_artifact_opinion() {
    let events = vec![file("/repo/data.bin", 10), file("/repo/data.bin.dvc", 3)];
    let ledger = map(&[("data.bin.dvc", StatusCode::Staged), ("data.bin", StatusCode::Deleted)]);
    let out = reconcile(&events, &ledger, &StatusMap::new(), &[]);
    assert_eq!(rows(&out), vec![("data.bin".to_string(), 10, false, true, StatusCode::Staged)]);
}

#[test]
fn artifact_status_is_ignored_without_sidecar() {
    let events = vec![file("/repo/plain.txt", 1)];
    let ledger = map(&[("plain.txt", StatusCode::Pushed)]);
    let artifacts = map(&[("plain.txt", StatusCode::Modified)]);
    let out = reconcile(&events, &ledger, &artifacts, &[]);
    assert_eq!(rows(&out), vec![("plain.txt".to_string(), 1, false, false, StatusCode::Pushed)]);
}

#[test]
fn unknown_paths_are_untracked() {
    let events = vec![file("/repo/new.txt", 7)];
    let out = reconcile(&events, &StatusMap::new(), &StatusMap::new(), &[]);
    assert_eq!(rows(&out), vec![("new.txt".to_string(), 7, false, false, StatusCode::Untracked)]);
}

#[test]
fn hidden_name_is_excluded() {
    let events = vec![file("/repo/src/.env", 1), file("/repo/src/main.rs", 2), dir("/repo/src")];
    let out = reconcile(&events, &StatusMap::new(), &StatusMap::new(), &[]);
    assert_eq!(paths(&out), vec!["src", "src/main.rs"]);
}

#[test]
fn entries_below_hidden_directories_are_excluded() {
    let events = vec![
        dir("/repo/.git"),
        file("/repo/.git/config", 1),
        file("/repo/a/.cache/x/y.txt", 1),
        file("/repo/a/b.txt", 1),
    ];
    let out = reconcile(&events, &StatusMap::new(), &StatusMap::new(), &[]);
    assert_eq!(paths(&out), vec!["a/b.txt"]);
}

#[test]
fn hidden_segments_of_the_browsed_directory_do_not_count() {
    let events = vec![file("/home/.config/proj/a.txt", 1)];
    let out = list_file_entries(
        &events,
        "/home/.config/proj",
        "/home/.config/proj",
        &StatusMap::new(),
        &StatusMap::new(),
        &Vec::new(),
    )
    .unwrap();
    assert_eq!(paths(&out), vec!["a.txt"]);
}

#[test]
fn ignored_directory_is_excluded_but_same_named_file_stays() {
    let events = vec![dir("/repo/target"), file("/repo/sub/target", 5), dir("/repo/sub")];
    let out = reconcile(&events, &StatusMap::new(), &StatusMap::new(), &["target"]);
    assert_eq!(
        rows(&out),
        vec![
            ("sub".to_string(), 4096, true, false, StatusCode::Untracked),
            ("sub/target".to_string(), 5, false, false, StatusCode::Untracked),
        ]
    );
}

#[test]
fn file_named_like_ignored_directory_at_the_root_stays() {
    let events = vec![file("/repo/target", 9)];
    let out = reconcile(&events, &StatusMap::new(), &StatusMap::new(), &["target"]);
    assert_eq!(paths(&out), vec!["target"]);
    let out = reconcile(&vec![dir("/repo/target")], &StatusMap::new(), &StatusMap::new(), &["target"]);
    assert!(out.is_empty());
    let out = reconcile(&vec![dir("/repo/target")], &StatusMap::new(), &StatusMap::new(), &["build"]);
    assert_eq!(paths(&out), vec!["target"]);
}

#[test]
fn entries_inside_an_ignored_directory_are_still_listed() {
    let events = vec![dir("/repo/build"), file("/repo/build/out.o", 1)];
    let out = reconcile(&events, &StatusMap::new(), &StatusMap::new(), &["build"]);
    assert_eq!(paths(&out), vec!["build/out.o"]);
}

#[test]
fn sidecars_and_links_are_excluded() {
    let events = vec![
        file("/repo/a.csv.dvc", 1),
        dir("/repo/weird.dvc"),
        link("/repo/link"),
        link("/repo/loop.txt"),
        file("/repo/a.csv", 1),
    ];
    let out = reconcile(&events, &StatusMap::new(), &StatusMap::new(), &[]);
    assert_eq!(rows(&out), vec![("a.csv".to_string(), 1, false, true, StatusCode::Untracked)]);
}

#[test]
fn output_is_sorted_by_path() {
    let events = vec![
        file("/repo/b.txt", 1),
        file("/repo/a/z.txt", 1),
        dir("/repo/a"),
        file("/repo/a.txt", 1),
        file("/repo/B.txt", 1),
        file("/repo/a/b/c.txt", 1),
        dir("/repo/a/b"),
        file("/repo/a-b.txt", 1),
    ];
    let out = reconcile(&events, &StatusMap::new(), &StatusMap::new(), &[]);
    let got = paths(&out);
    let mut sorted = got.clone();
    sorted.sort();
    assert_eq!(got, sorted);
    assert_eq!(got, vec!["B.txt", "a", "a-b.txt", "a.txt", "a/b", "a/b/c.txt", "a/z.txt", "b.txt"]);
}

#[test]
fn two_calls_give_identical_output() {
    let events = vec![
        file("/repo/x/data.bin", 10),
        file("/repo/x/data.bin.dvc", 3),
        dir("/repo/x"),
        file("/repo/readme.md", 2),
    ];
    let ledger = map(&[("x/data.bin.dvc", StatusCode::Pushed), ("readme.md", StatusCode::Modified)]);
    let artifacts = map(&[("x/data.bin", StatusCode::NotInCache)]);
    let first = reconcile(&events, &ledger, &artifacts, &["target"]);
    let second = reconcile(&events, &ledger, &artifacts, &["target"]);
    assert_eq!(rows(&first), rows(&second));
    assert_eq!(format!("{:?}", first), format!("{:?}", second));
    assert_eq!(
        rows(&first),
        vec![
            ("readme.md".to_string(), 2, false, false, StatusCode::Modified),
            ("x".to_string(), 4096, true, false, StatusCode::Untracked),
            ("x/data.bin".to_string(), 10, false, true, StatusCode::NotInCache),
        ]
    );
}

#[test]
fn order_of_the_walk_does_not_matter() {
    let a = vec![file("/repo/b", 1), file("/repo/a", 2), dir("/repo/c")];
    let b = vec![dir("/repo/c"), file("/repo/a", 2), file("/repo/b", 1)];
    let x = reconcile(&a, &StatusMap::new(), &StatusMap::new(), &[]);
    let y = reconcile(&b, &StatusMap::new(), &StatusMap::new(), &[]);
    assert_eq!(rows(&x), rows(&y));
}

#[test]
fn a_path_seen_twice_is_listed_once_with_the_later_record() {
    let events = vec![file("/repo/a", 1), file("/repo/./a", 2)];
    let out = reconcile(&events, &StatusMap::new(), &StatusMap::new(), &[]);
    assert_eq!(rows(&out), vec![("a".to_string(), 2, false, false, StatusCode::Untracked)]);
}

#[test]
fn directory_sidecar_convention() {
    let events = vec![dir("/repo/images"), file("/repo/images/images.dvc", 1), file("/repo/images/1.png", 5)];
    let ledger = map(&[("images/images.dvc", StatusCode::Pushed)]);
    let artifacts = map(&[("images", StatusCode::Modified)]);
    let out = reconcile(&events, &ledger, &artifacts, &[]);
    assert_eq!(
        rows(&out),
        vec![
            ("images".to_string(), 4096, true, true, StatusCode::Modified),
            ("images/1.png".to_string(), 5, false, false, StatusCode::Untracked),
        ]
    );
}

#[test]
fn ledger_root_may_lie_above_the_browsed_directory() {
    let events = vec![file("/repo/sub/f.txt", 1), file("/repo/sub/g.bin", 1), file("/repo/sub/g.bin.dvc", 1)];
    let ledger = map(&[("sub/f.txt", StatusCode::Modified), ("sub/g.bin.dvc", StatusCode::Pushed)]);
    let artifacts = map(&[("sub/g.bin", StatusCode::Deleted)]);
    let out = list_file_entries(&events, "/repo/sub", "/repo", &ledger, &artifacts, &Vec::new()).unwrap();
    assert_eq!(
        rows(&out),
        vec![
            ("f.txt".to_string(), 1, false, false, StatusCode::Modified),
            ("g.bin".to_string(), 1, false, true, StatusCode::Deleted),
        ]
    );
}

#[test]
fn windows_style_paths() {
    let events = vec![file("\\repo\\data\\x.bin", 1), file("\\repo\\data\\x.bin.dvc", 1)];
    let ledger = map(&[("data/x.bin.dvc", StatusCode::Staged)]);
    let out = list_file_entries(&events, "\\repo", "\\repo", &ledger, &StatusMap::new(), &Vec::new()).unwrap();
    assert_eq!(rows(&out), vec![("data/x.bin".to_string(), 1, false, true, StatusCode::Staged)]);
}

#[test]
fn entry_outside_browsed_directory_fails() {
    let events = vec![file("/repo/a", 1), file("/elsewhere/b", 1)];
    match list_file_entries(&events, "/repo", "/repo", &StatusMap::new(), &StatusMap::new(), &Vec::new()) {
        Err(StatusError::PathOutsideRoot { path, root }) => {
            assert_eq!(path, "/elsewhere/b");
            assert_eq!(root, "/repo");
        }
        _ => panic!("expected PathOutsideRoot"),
    }
}

#[test]
fn entry_outside_ledger_root_fails() {
    let events = vec![file("/work/a", 1)];
    match list_file_entries(&events, "/work", "/repo", &StatusMap::new(), &StatusMap::new(), &Vec::new()) {
        Err(StatusError::PathOutsideRoot { path, root }) => {
            assert_eq!(path, "/work/a");
            assert_eq!(root, "/repo");
        }
        _ => panic!("expected PathOutsideRoot"),
    }
}

#[test]
fn skipped_entries_never_fail() {
    let events = vec![link("/elsewhere/l"), file("/repo/a", 1)];
    let out = reconcile(&events, &StatusMap::new(), &StatusMap::new(), &[]);
    assert_eq!(paths(&out), vec!["a"]);
}

#[test]
fn walk_failures_follow_the_policy() {
    let denied = WalkEvent::Failed {
        path: "/repo/secret".to_string(),
        kind: WalkFailureKind::PermissionDenied,
        detail: "permission denied".to_string(),
    };
    let cycle = WalkEvent::Failed {
        path: "/repo/loop".to_string(),
        kind: WalkFailureKind::SymlinkLoop,
        detail: "loop".to_string(),
    };
    let out = reconcile(&vec![denied, cycle, file("/repo/a", 1)], &StatusMap::new(), &StatusMap::new(), &[]);
    assert_eq!(paths(&out), vec!["a"]);
    let broken = WalkEvent::Failed {
        path: "/repo/bad".to_string(),
        kind: WalkFailureKind::Other,
        detail: "input/output error".to_string(),
    };
    match list_file_entries(
        &vec![file("/repo/a", 1), broken, file("/elsewhere/x", 1)],
        "/repo",
        "/repo",
        &StatusMap::new(),
        &StatusMap::new(),
        &Vec::new(),
    ) {
        Err(StatusError::FilesystemError { path, detail }) => {
            assert_eq!(path, "/repo/bad");
            assert_eq!(detail, "input/output error");
        }
        _ => panic!("expected FilesystemError"),
    }
}

#[test]
fn empty_walk_gives_empty_listing() {
    assert!(reconcile(&Vec::new(), &StatusMap::new(), &StatusMap::new(), &[]).is_empty());
}

#[test]
fn known_paths_are_collected_in_normal_form() {
    let events = vec![file("/repo/a/../b.dvc", 1), link("/repo/l"), file("/other/x", 1), dir("/repo")];
    let known = collect_known(&events, "/repo");
    assert_eq!(known.to_vec(), vec!["", "b.dvc", "l"]);
}

#[test]
fn entry_record_reports_each_outcome() {
    let known = PathSet::new();
    let none = StatusMap::new();
    let e = WalkEntry { path: "/repo/.x".to_string(), size: 1, is_directory: false, is_symlink: false };
    assert!(matches!(entry_record(&e, "/repo", "/repo", &none, &none, &Vec::new(), &known), Ok(None)));
    let e = WalkEntry { path: "/out/x".to_string(), size: 1, is_directory: false, is_symlink: false };
    assert!(matches!(
        entry_record(&e, "/repo", "/repo", &none, &none, &Vec::new(), &known),
        Err(StatusError::PathOutsideRoot { .. })
    ));
    let e = WalkEntry { path: "/repo/x".to_string(), size: 3, is_directory: false, is_symlink: false };
    let r = entry_record(&e, "/repo", "/repo", &none, &none, &Vec::new(), &known).unwrap().unwrap();
    assert_eq!(row(&r), ("x".to_string(), 3, false, false, StatusCode::Untracked));
}

#[test]
fn ledger_status_lookup_uses_the_sidecar() {
    let ledger = map(&[("d/x.bin.dvc", StatusCode::Conflict), ("d/x.bin", StatusCode::Pushed)]);
    assert_eq!(get_git_status_for_path("/repo/d/x.bin", false, "/repo", &ledger, true).unwrap(), StatusCode::Conflict);
    assert_eq!(get_git_status_for_path("/repo/d/x.bin", false, "/repo", &ledger, false).unwrap(), StatusCode::Pushed);
    assert_eq!(get_git_status_for_path("/repo/d/y", false, "/repo", &ledger, false).unwrap(), StatusCode::Untracked);
    assert_eq!(get_git_status_for_path("/repo/d", true, "/repo", &ledger, true).unwrap(), StatusCode::Untracked);
    assert!(matches!(
        get_git_status_for_path("/x/y", false, "/repo", &ledger, false),
        Err(StatusError::PathOutsideRoot { .. })
    ));
}

#[test]
fn status_of_single_files() {
    let ledger = map(&[("a.bin.dvc", StatusCode::Staged), ("b.txt", StatusCode::Modified)]);
    let mut known = PathSet::new();
    known.insert("a.bin.dvc".to_string());
    let s = file_status("/repo/a.bin", "/repo", &ledger, &known).unwrap();
    assert_eq!((s.path.as_str(), s.git_status, s.has_dvc_file), ("/repo/a.bin", StatusCode::Staged, true));
    let s = file_status("/repo/a.bin.dvc", "/repo", &ledger, &known).unwrap();
    assert_eq!((s.path.as_str(), s.git_status, s.has_dvc_file), ("/repo/a.bin", StatusCode::Staged, true));
    let s = file_status("/repo/b.txt", "/repo", &ledger, &known).unwrap();
    assert_eq!((s.path.as_str(), s.git_status, s.has_dvc_file), ("/repo/b.txt", StatusCode::Modified, false));
    let s = file_status("c.txt", "/repo", &ledger, &known).unwrap();
    assert_eq!((s.path.as_str(), s.git_status, s.has_dvc_file), ("c.txt", StatusCode::Untracked, false));
}

#[test]
fn statuses_of_several_files_keep_their_order() {
    let ledger = map(&[("b", StatusCode::Modified)]);
    let known = PathSet::new();
    let out = get_files_status(&names(&["/repo/b", "/repo/a", "/repo/z.dvc"]), "/repo", &ledger, &known).unwrap();
    let got: Vec<(String, StatusCode, bool)> = out.into_iter().map(|s| (s.path, s.git_status, s.has_dvc_file)).collect();
    assert_eq!(
        got,
        vec![
            ("/repo/b".to_string(), StatusCode::Modified, false),
            ("/repo/a".to_string(), StatusCode::Untracked, false),
            ("/repo/z".to_string(), StatusCode::Untracked, true),
        ]
    );
    assert!(matches!(
        get_files_status(&names(&["/repo/b", "/nowhere/a"]), "/repo", &ledger, &known),
        Err(StatusError::PathOutsideRoot { .. })
    ));
}

#[test]
fn default_ignore_list() {
    assert_eq!(default_ignore_prefixes(), vec!["target", "node_modules", ".git", "dist", "build"]);
}

fn ran(stdout: &str) -> CommandOutcome {
    CommandOutcome::Ran { success: true, stdout: stdout.to_string(), stderr: String::new() }
}

#[test]
fn whole_query_from_collaborator_outputs() {
    let events = vec![
        dir("/repo"),
        dir("/repo/.git"),
        dir("/repo/node_modules"),
        file("/repo/node_modules/x.js", 1),
        file("/repo/data.bin", 10),
        file("/repo/data.bin.dvc", 3),
        file("/repo/src.rs", 4),
        file("/repo/new.txt", 5),
    ];
    let out = get_file_tree_structure(
        &events,
        "/repo",
        &default_ignore_prefixes(),
        &ran("/repo\n"),
        &ran("data.bin.dvc\nsrc.rs\n"),
        &ran(" M src.rs\n?? new.txt\nA  data.bin.dvc\n"),
        &ran(r#"{"modified": [{"path": "data.bin"}]}"#),
    )
    .unwrap();
    assert_eq!(
        rows(&out),
        vec![
            ("".to_string(), 4096, true, false, StatusCode::Untracked),
            ("data.bin".to_string(), 10, false, true, StatusCode::Modified),
            ("new.txt".to_string(), 5, false, false, StatusCode::Untracked),
            ("node_modules/x.js".to_string(), 1, false, false, StatusCode::Untracked),
            ("src.rs".to_string(), 4, false, false, StatusCode::Modified),
        ]
    );
}

#[test]
fn whole_query_fails_with_the_first_collaborator_failure() {
    let events = vec![file("/repo/a", 1)];
    let bad = CommandOutcome::Ran { success: false, stdout: String::new(), stderr: "x".to_string() };
    match get_file_tree_structure(&events, "/repo", &Vec::new(), &bad, &ran(""), &ran(""), &ran("nonsense")) {
        Err(StatusError::LedgerUnavailable { detail }) => assert_eq!(detail, "Not a git repository"),
        _ => panic!("expected LedgerUnavailable"),
    }
    assert!(matches!(
        get_file_tree_structure(&events, "/repo", &Vec::new(), &ran("/repo"), &ran(""), &ran(""), &ran("nonsense")),
        Err(StatusError::ArtifactToolUnavailable { .. })
    ));
    assert!(matches!(
        get_file_tree_structure(&events, "/repo", &Vec::new(), &ran("/other"), &ran(""), &ran(""), &ran("{}")),
        Err(StatusError::PathOutsideRoot { .. })
    ));
}
