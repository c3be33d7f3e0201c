use fenn::error::StatusError;
use fenn::path_map::PathSet;
use fenn::sidecar::{check_dvc_file, is_sidecar, sidecar_for, sidecar_to_stage};

#[test]
fn file_sidecar_appends_suffix_after_extension() {
    assert_eq!(sidecar_for("data.csv", false), "data.csv.dvc");
    assert_eq!(sidecar_for("/repo/dir/model", false), "/repo/dir/model.dvc");
    assert_eq!(sidecar_for("archive.tar.gz", false), "archive.tar.gz.dvc");
}

#[test]
fn file_sidecar_has_exactly_one_suffix() {
    let s = sidecar_for("data.csv", false);
    assert!(is_sidecar(&s));
    let stem = &s[..s.len() - 4];
    assert_eq!(stem, "data.csv");
    assert!(!is_sidecar(stem));
}

#[test]
fn directory_sidecar_lies_inside_the_directory() {
    assert_eq!(sidecar_for("/repo/images", true), "/repo/images/images.dvc");
    assert_eq!(sidecar_for("images", true), "images/images.dvc");
    assert_eq!(sidecar_for("a\\b", true), "a\\b/b.dvc");
}

#[test]
fn directory_sidecar_uses_the_resolved_name() {
    assert_eq!(sidecar_for("/repo/images/", true), "/repo/images//images.dvc");
    assert_eq!(sidecar_for("/repo/a/..", true), "/repo/a/../repo.dvc");
    assert_eq!(sidecar_for("", true), "/.dvc");
}

#[test]
fn sidecar_paths_are_recognised() {
    assert!(is_sidecar("data.csv.dvc"));
    assert!(is_sidecar(".dvc"));
    assert!(is_sidecar("dir/x.dvc"));
    assert!(!is_sidecar("data.csv"));
    assert!(!is_sidecar("dvc"));
    assert!(!is_sidecar("x.dvcs"));
    assert!(!is_sidecar("x.DVC"));
    assert!(!is_sidecar(""));
}

#[test]
fn sidecar_is_found_among_known_paths() {
    let mut known = PathSet::new();
    known.insert("data.bin.dvc".to_string());
    known.insert("images/images.dvc".to_string());
    assert!(check_dvc_file("/repo/data.bin", false, "/repo", &known));
    assert!(check_dvc_file("data.bin", false, "/repo", &known));
    assert!(check_dvc_file("/repo/images", true, "/repo", &known));
    assert!(!check_dvc_file("/repo/images", false, "/repo", &known));
    assert!(!check_dvc_file("/repo/other.bin", false, "/repo", &known));
}

#[test]
fn a_sidecar_has_no_sidecar() {
    let mut known = PathSet::new();
    known.insert("x.dvc".to_string());
    known.insert("x.dvc.dvc".to_string());
    assert!(!check_dvc_file("/repo/x.dvc", false, "/repo", &known));
}

#[test]
fn sidecar_outside_root_is_not_found() {
    let mut known = PathSet::new();
    known.insert("data.bin.dvc".to_string());
    assert!(!check_dvc_file("/elsewhere/data.bin", false, "/repo", &known));
}

#[test]
fn sidecar_to_stage_is_relative_and_suffixed_once() {
    assert_eq!(sidecar_to_stage("/repo/data/x.csv", "/repo").unwrap(), "data/x.csv.dvc");
    assert_eq!(sidecar_to_stage("data/x.csv", "/repo").unwrap(), "data/x.csv.dvc");
    assert_eq!(sidecar_to_stage("/repo/data/x.csv.dvc", "/repo").unwrap(), "data/x.csv.dvc");
}

#[test]
fn sidecar_to_stage_outside_root_fails() {
    match sidecar_to_stage("/other/x.csv", "/repo") {
        Err(StatusError::PathOutsideRoot { path, root }) => {
            assert_eq!(path, "/other/x.csv");
            assert_eq!(root, "/repo");
        }
        _ => panic!("expected PathOutsideRoot"),
    }
}
