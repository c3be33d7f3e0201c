use fenn::error::StatusError;
use fenn::path::{join_path, normalize, relative_parts, split_path};

fn norm(path: &str, root: &str) -> String {
    normalize(path, root).unwrap()
}

fn outside(path: &str, root: &str) -> bool {
    match normalize(path, root) {
        Err(StatusError::PathOutsideRoot { path: p, root: r }) => p == path && r == root,
        _ => false,
    }
}

#[test]
fn absolute_path_is_made_relative() {
    assert_eq!(norm("/repo/a/b.txt", "/repo"), "a/b.txt");
}

#[test]
fn both_separators_are_understood() {
    assert_eq!(norm("\\repo\\a\\b.txt", "/repo"), "a/b.txt");
    assert_eq!(norm("/repo/a\\b.txt", "\\repo\\"), "a/b.txt");
}

#[test]
fn relative_path_starts_at_the_root() {
    assert_eq!(norm("a/b.txt", "/repo"), "a/b.txt");
    assert_eq!(norm("a/b.txt", "repo"), "a/b.txt");
    assert_eq!(norm("a/b.txt", ""), "a/b.txt");
}

#[test]
fn empty_and_dot_segments_vanish() {
    assert_eq!(norm("a/./b//c/", "/repo"), "a/b/c");
    assert_eq!(norm("/repo/./a//b", "/repo/"), "a/b");
}

#[test]
fn parent_segments_are_resolved() {
    assert_eq!(norm("/repo/a/../b", "/repo"), "b");
    assert_eq!(norm("a/b/../../c", "/repo"), "c");
    assert_eq!(norm("../repo/x", "/repo"), "x");
    assert_eq!(norm("/repo/x", "/other/../repo"), "x");
}

#[test]
fn the_root_itself_is_the_empty_path() {
    assert_eq!(norm("/repo", "/repo"), "");
    assert_eq!(norm("", "/repo"), "");
    assert_eq!(norm(".", "/repo"), "");
    assert_eq!(norm("a/..", "/repo"), "");
}

#[test]
fn path_outside_root_is_reported() {
    assert!(outside("/other/x", "/repo"));
    assert!(outside("../x", "/repo"));
    assert!(outside("/repo/../x", "/repo"));
    assert!(outside("/", "/repo"));
}

#[test]
fn a_shared_prefix_of_names_is_not_enough() {
    assert!(outside("/repository/x", "/repo"));
    assert!(outside("/rep/x", "/repo"));
}

#[test]
fn climbing_above_the_start_is_reported() {
    assert!(outside("/../x", "/"));
    assert!(outside("/repo/x", "/.."));
    assert!(outside("../../x", "repo"));
}

#[test]
fn absolute_path_under_relative_root_is_reported() {
    assert!(outside("/repo/x", "repo"));
}

#[test]
fn normalize_is_idempotent_on_samples() {
    let root = "/home/user/repo";
    for p in [
        "/home/user/repo/a/b.txt",
        "a\\b\\..\\c",
        "/home/user/repo",
        "x/./y//z",
        "../repo/data.bin",
    ] {
        let once = norm(p, root);
        let twice = norm(&once, root);
        assert_eq!(once, twice);
    }
}

#[test]
fn normal_form_has_no_dot_segments() {
    let out = norm("/r/a/./b/../c//d", "/r");
    assert_eq!(out, "a/c/d");
    for seg in out.split('/') {
        assert!(!seg.is_empty() && seg != "." && seg != "..");
    }
}

#[test]
fn split_keeps_empty_pieces() {
    let parts: Vec<String> = split_path("/a//b\\").iter().map(|s| s.iter().collect()).collect();
    assert_eq!(parts, vec!["", "a", "", "b", ""]);
    let one: Vec<String> = split_path("").iter().map(|s| s.iter().collect()).collect();
    assert_eq!(one, vec![""]);
}

#[test]
fn relative_parts_and_join_agree_with_normalize() {
    let parts = relative_parts("/repo/x/../y/z.txt", "/repo").unwrap();
    let names: Vec<String> = parts.iter().map(|s| s.iter().collect()).collect();
    assert_eq!(names, vec!["y", "z.txt"]);
    assert_eq!(join_path(&parts), "y/z.txt");
    assert_eq!(join_path(&Vec::new()), "");
}

#[test]
fn unicode_names_pass_through() {
    assert_eq!(norm("/répo/データ/ß.txt", "/répo"), "データ/ß.txt");
}
