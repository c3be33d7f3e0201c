//! Status codes and the ledger's two-column porcelain codes.

use crate::path_map::PathMap;
use vstd::prelude::*;

verus! {

/// The status of one path. `Pushed` is the baseline of a path that the
/// ledger's last committed snapshot holds and that is otherwise clean; any
/// status found by a scan of the working tree or index replaces it. `Added`
/// and `NotInCache` are reported by the artifact tracker only.
#[derive(Clone, Copy, Debug, PartialEq, Eq, Structural)]
pub enum StatusCode {
    Untracked,
    Staged,
    Modified,
    Deleted,
    Conflict,
    Renamed,
    Pushed,
    PartiallyStaged,
    Other,
    Added,
    NotInCache,
}

/// A map from normalised path to status.
pub type StatusMap = PathMap<StatusCode>;

/// The status that the porcelain code `xy` stands for: `x` is the index
/// column, `y` the worktree column, and a space an unmodified column.
pub open spec fn porcelain_status(x: char, y: char) -> StatusCode {
    if x == '?' && y == '?' {
        StatusCode::Untracked
    } else if y == ' ' && (x == 'A' || x == 'M' || x == 'D' || x == 'R' || x == 'C') {
        StatusCode::Staged
    } else if x == ' ' && y == 'M' {
        StatusCode::Modified
    } else if x == ' ' && y == 'D' {
        StatusCode::Deleted
    } else if y == 'M' && (x == 'M' || x == 'A') {
        StatusCode::PartiallyStaged
    } else if x == 'U' || y == 'U' || (x == 'A' && y == 'A') || (x == 'D' && y == 'D') {
        StatusCode::Conflict
    } else {
        StatusCode::Other
    }
}

/// Maps a two-column porcelain code to its status.
pub fn parse_git_status(x: char, y: char) -> (status: StatusCode)
    ensures
        status == porcelain_status(x, y),
{
    match (x, y) {
        ('?', '?') => StatusCode::Untracked,
        ('A', ' ') | ('M', ' ') | ('D', ' ') | ('R', ' ') | ('C', ' ') => StatusCode::Staged,
        (' ', 'M') => StatusCode::Modified,
        (' ', 'D') => StatusCode::Deleted,
        ('M', 'M') | ('A', 'M') => StatusCode::PartiallyStaged,
        ('U', _) | (_, 'U') | ('A', 'A') | ('D', 'D') => StatusCode::Conflict,
        _ => StatusCode::Other,
    }
}

/// The name under which a status is shown.
pub open spec fn status_name(status: StatusCode) -> Seq<char> {
    match status {
        StatusCode::Untracked => "untracked"@,
        StatusCode::Staged => "staged"@,
        StatusCode::Modified => "modified"@,
        StatusCode::Deleted => "deleted"@,
        StatusCode::Conflict => "conflict"@,
        StatusCode::Renamed => "renamed"@,
        StatusCode::Pushed => "pushed"@,
        StatusCode::PartiallyStaged => "partially_staged"@,
        StatusCode::Other => "other"@,
        StatusCode::Added => "added"@,
        StatusCode::NotInCache => "not in cache"@,
    }
}

impl StatusCode {
    /// The name under which this status is shown.
    pub fn as_str(&self) -> (name: &'static str)
        ensures
            name@ == status_name(*self),
    {
        match self {
            StatusCode::Untracked => "untracked",
            StatusCode::Staged => "staged",
            StatusCode::Modified => "modified",
            StatusCode::Deleted => "deleted",
            StatusCode::Conflict => "conflict",
            StatusCode::Renamed => "renamed",
            StatusCode::Pushed => "pushed",
            StatusCode::PartiallyStaged => "partially_staged",
            StatusCode::Other => "other",
            StatusCode::Added => "added",
            StatusCode::NotInCache => "not in cache",
        }
    }
}

} // verus!
