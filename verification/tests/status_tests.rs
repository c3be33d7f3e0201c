use fenn::path_map::{PathMap, PathSet};
use fenn::state::SelectedFiles;
use fenn::status::{parse_git_status, StatusCode, StatusMap};
use fenn::text::{lex_order, str_eq, Order};

#[test]
fn untracked_code() {
    assert_eq!(parse_git_status('?', '?'), StatusCode::Untracked);
}

#[test]
fn staged_codes() {
    for x in ['A', 'M', 'D', 'R', 'C'] {
        assert_eq!(parse_git_status(x, ' '), StatusCode::Staged);
    }
}

#[test]
fn worktree_codes() {
    assert_eq!(parse_git_status(' ', 'M'), StatusCode::Modified);
    assert_eq!(parse_git_status(' ', 'D'), StatusCode::Deleted);
}

#[test]
fn partially_staged_codes() {
    assert_eq!(parse_git_status('M', 'M'), StatusCode::PartiallyStaged);
    assert_eq!(parse_git_status('A', 'M'), StatusCode::PartiallyStaged);
}

#[test]
fn conflict_codes() {
    for (x, y) in [
        ('U', 'U'),
        ('A', 'A'),
        ('D', 'D'),
        ('U', 'D'),
        ('D', 'U'),
        ('A', 'U'),
        ('U', 'A'),
        ('U', ' '),
        (' ', 'U'),
        ('U', 'M'),
    ] {
        assert_eq!(parse_git_status(x, y), StatusCode::Conflict);
    }
}

#[test]
fn other_codes() {
    for (x, y) in [(' ', ' '), ('!', '!'), ('R', 'M'), ('D', 'M'), ('?', ' '), (' ', '?'), ('T', ' '), ('M', 'D')] {
        assert_eq!(parse_git_status(x, y), StatusCode::Other);
    }
}

#[test]
fn status_names() {
    assert_eq!(StatusCode::Untracked.as_str(), "untracked");
    assert_eq!(StatusCode::Staged.as_str(), "staged");
    assert_eq!(StatusCode::Modified.as_str(), "modified");
    assert_eq!(StatusCode::Deleted.as_str(), "deleted");
    assert_eq!(StatusCode::Conflict.as_str(), "conflict");
    assert_eq!(StatusCode::Renamed.as_str(), "renamed");
    assert_eq!(StatusCode::Pushed.as_str(), "pushed");
    assert_eq!(StatusCode::PartiallyStaged.as_str(), "partially_staged");
    assert_eq!(StatusCode::Other.as_str(), "other");
    assert_eq!(StatusCode::Added.as_str(), "added");
    assert_eq!(StatusCode::NotInCache.as_str(), "not in cache");
}

#[test]
fn selection_scenario_leaves_only_y() {
    let mut s = SelectedFiles::new();
    s.add_path("x".to_string());
    s.add_path("x".to_string());
    s.add_path("y".to_string());
    s.remove_path("x");
    assert_eq!(s.list(), vec!["y".to_string()]);
    assert_eq!(s.len(), 1);
    assert!(s.contains("y"));
    assert!(!s.contains("x"));
}

#[test]
fn selection_add_is_idempotent() {
    let mut s = SelectedFiles::new();
    s.add_path("a/b".to_string());
    let once = s.list();
    s.add_path("a/b".to_string());
    assert_eq!(s.list(), once);
    assert_eq!(s.len(), 1);
}

#[test]
fn selection_lists_in_ascending_order() {
    let mut s = SelectedFiles::new();
    for p in ["m", "b", "z", "a", "b/c", "B"] {
        s.add_path(p.to_string());
    }
    assert_eq!(s.list(), vec!["B", "a", "b", "b/c", "m", "z"]);
}

#[test]
fn selection_remove_absent_and_clear() {
    let mut s = SelectedFiles::default();
    s.remove_path("nothing");
    assert_eq!(s.len(), 0);
    s.add_path("p".to_string());
    s.add_path("q".to_string());
    s.clear();
    assert!(s.list().is_empty());
    assert!(!s.contains("p"));
}

#[test]
fn path_map_insert_get_overwrite_remove() {
    let mut m: StatusMap = PathMap::new();
    assert_eq!(m.len(), 0);
    m.insert("b".to_string(), StatusCode::Pushed);
    m.insert("a".to_string(), StatusCode::Staged);
    m.insert("c".to_string(), StatusCode::Deleted);
    assert_eq!(m.get("a"), Some(&StatusCode::Staged));
    assert_eq!(m.get("b"), Some(&StatusCode::Pushed));
    assert_eq!(m.get("d"), None);
    m.insert("b".to_string(), StatusCode::Modified);
    assert_eq!(m.get("b"), Some(&StatusCode::Modified));
    assert_eq!(m.len(), 3);
    assert_eq!(m.keys(), vec!["a", "b", "c"]);
    m.remove("a");
    m.remove("zz");
    assert!(!m.contains("a"));
    assert_eq!(m.keys(), vec!["b", "c"]);
    assert_eq!(m.into_values(), vec![StatusCode::Modified, StatusCode::Deleted]);
}

#[test]
fn path_map_keeps_many_keys_sorted() {
    let mut m: PathMap<usize> = PathMap::new();
    let n = 200usize;
    for i in 0..n {
        let k = (i * 37) % n;
        m.insert(format!("k{:03}", k), k);
    }
    assert_eq!(m.len(), n);
    let keys = m.keys();
    for i in 0..n {
        assert_eq!(keys[i], format!("k{:03}", i));
        assert_eq!(m.get(&keys[i]), Some(&i));
    }
    m.clear();
    assert_eq!(m.len(), 0);
}

#[test]
fn path_set_members() {
    let mut s = PathSet::new();
    s.insert("b".to_string());
    s.insert("a".to_string());
    s.insert("b".to_string());
    assert_eq!(s.len(), 2);
    assert!(s.contains("a"));
    assert_eq!(s.to_vec(), vec!["a", "b"]);
    s.remove("a");
    assert!(!s.contains("a"));
    s.clear();
    assert_eq!(s.len(), 0);
}

#[test]
fn lexicographic_order_matches_string_order() {
    let samples = ["", "a", "ab", "b", "a/b", "a.b", "A", "é", "z", "日本", "a\u{10000}", "a\u{ffff}"];
    for a in samples {
        for b in samples {
            assert_eq!(str_eq(a, b), a == b);
            let expected = if a < b {
                Order::Before
            } else if a == b {
                Order::Same
            } else {
                Order::After
            };
            assert_eq!(lex_order(a, b), expected);
        }
    }
}
