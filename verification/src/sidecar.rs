//! Sidecar pointer files: where the artifact tracker keeps the pointer of a
//! tracked file or directory.

use crate::error::{StatusError, StatusErrorView};
use crate::path::{normalize, normalized, resolve, resolve_segments, seg_views, split_path, split_segments};
use crate::path_map::PathSet;
use crate::text::{chars_of, push_chars};
use vstd::prelude::*;

verus! {

/// The suffix `.dvc` that marks a sidecar.
pub open spec fn sidecar_suffix() -> Seq<char> {
    seq!['.', 'd', 'v', 'c']
}

/// A path that ends in `.dvc` is a sidecar itself.
pub open spec fn is_sidecar_path(p: Seq<char>) -> bool {
    p.len() >= 4 && p[p.len() - 4] == '.' && p[p.len() - 3] == 'd' && p[p.len() - 2] == 'v' && p[p.len()
        - 1] == 'c'
}

/// The name of the entry that `path` leads to: its last segment once `.`,
/// `..` and empty segments are resolved. Empty where nothing is left.
pub open spec fn base_name(path: Seq<char>) -> Seq<char> {
    match resolve(Seq::empty(), split_segments(path)) {
        Some(segs) => if segs.len() > 0 {
            segs.last()
        } else {
            Seq::empty()
        },
        None => Seq::empty(),
    }
}

/// The sidecar of `path`: for a file the path with `.dvc` appended, for a
/// directory the file in it that bears the directory's name and `.dvc`.
pub open spec fn sidecar_path(path: Seq<char>, is_directory: bool) -> Seq<char> {
    if is_directory {
        path + seq!['/'] + base_name(path) + sidecar_suffix()
    } else {
        path + sidecar_suffix()
    }
}

/// A file's sidecar ends in exactly one `.dvc` added to the file's path:
/// without it the path is the file's again, which is no sidecar.
pub proof fn lemma_sidecar_single_suffix(file: Seq<char>)
    requires
        !is_sidecar_path(file),
    ensures
        is_sidecar_path(sidecar_path(file, false)),
        sidecar_path(file, false).len() == file.len() + 4,
        sidecar_path(file, false).take(file.len() as int) == file,
        !is_sidecar_path(sidecar_path(file, false).take(file.len() as int)),
{
    assert(sidecar_path(file, false).take(file.len() as int) =~= file);
}

/// Whether `path` ends in `.dvc`.
pub fn is_sidecar(path: &str) -> (r: bool)
    ensures
        r == is_sidecar_path(path@),
{
    let chars = chars_of(path);
    let n = chars.len();
    n >= 4 && chars[n - 4] == '.' && chars[n - 3] == 'd' && chars[n - 2] == 'v' && chars[n - 1]
        == 'c'
}

/// The sidecar of `path`. A sidecar has no sidecar of its own, so `path`
/// must not be one.
pub fn sidecar_for(path: &str, is_directory: bool) -> (out: String)
    requires
        !is_sidecar_path(path@),
    ensures
        out@ == sidecar_path(path@, is_directory),
        is_sidecar_path(out@),
{
    let mut out = path.to_owned();
    if is_directory {
        out.push('/');
        let parts = split_path(path);
        let start: Vec<Vec<char>> = Vec::new();
        assert(seg_views(start@) =~= Seq::<Seq<char>>::empty());
        match resolve_segments(start, &parts) {
            Some(segs) => {
                if segs.len() > 0 {
                    push_chars(&mut out, &segs[segs.len() - 1]);
                } else {
                    assert(out@ =~= path@ + seq!['/'] + base_name(path@));
                }
            },
            None => {
                assert(out@ =~= path@ + seq!['/'] + base_name(path@));
            },
        }
    }
    let ghost stem = out@;
    out.push('.');
    out.push('d');
    out.push('v');
    out.push('c');
    assert(out@ =~= stem + sidecar_suffix());
    out
}

/// Whether the sidecar of `path` is among `known`, the normal forms relative
/// to `root` of the paths that exist. A sidecar has none.
pub open spec fn has_sidecar(
    path: Seq<char>,
    is_directory: bool,
    root: Seq<char>,
    known: Set<Seq<char>>,
) -> bool {
    !is_sidecar_path(path) && match normalized(sidecar_path(path, is_directory), root) {
        Some(k) => known.contains(k),
        None => false,
    }
}

/// Whether `path` has a sidecar among the existing paths `known`, which are
/// held in normal form relative to `root`.
pub fn check_dvc_file(path: &str, is_directory: bool, root: &str, known: &PathSet) -> (r: bool)
    ensures
        r == has_sidecar(path@, is_directory, root@, known@),
{
    if is_sidecar(path) {
        return false;
    }
    let sidecar = sidecar_for(path, is_directory);
    match normalize(sidecar.as_str(), root) {
        Ok(k) => known.contains(k.as_str()),
        Err(_) => false,
    }
}

/// The sidecar that is staged in the ledger for `file`: its normal form
/// relative to `root` where `file` is a sidecar already, else that with
/// `.dvc` appended.
pub open spec fn staged_sidecar(file: Seq<char>, root: Seq<char>) -> Option<Seq<char>> {
    match normalized(file, root) {
        None => None,
        Some(rel) => if is_sidecar_path(rel) {
            Some(rel)
        } else {
            Some(sidecar_path(rel, false))
        },
    }
}

/// The path, relative to `repo_root`, of the sidecar to stage for `file`.
/// Fails with `PathOutsideRoot` exactly when `file` does not lie under
/// `repo_root`.
pub fn sidecar_to_stage(file: &str, repo_root: &str) -> (r: Result<String, StatusError>)
    ensures
        match r {
            Ok(path) => staged_sidecar(file@, repo_root@) == Some(path@) && is_sidecar_path(path@),
            Err(e) => staged_sidecar(file@, repo_root@) is None && e@ == (
            StatusErrorView::PathOutsideRoot { path: file@, root: repo_root@ }),
        },
{
    match normalize(file, repo_root) {
        Err(e) => Err(e),
        Ok(rel) => {
            if is_sidecar(rel.as_str()) {
                Ok(rel)
            } else {
                Ok(sidecar_for(rel.as_str(), false))
            }
        },
    }
}

} // verus!
