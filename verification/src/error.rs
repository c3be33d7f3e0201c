//! The failures a status query can end in.

use vstd::prelude::*;

verus! {

/// Why a status query failed. Each kind ends the query that met it.
#[derive(Debug)]
pub enum StatusError {
    /// `path` could not be expressed relative to `root`.
    PathOutsideRoot { path: String, root: String },
    /// The directory is not under ledger control, or the ledger could not be
    /// queried.
    LedgerUnavailable { detail: String },
    /// The artifact tracker could not be run, or its report has the wrong
    /// shape.
    ArtifactToolUnavailable { detail: String },
    /// Reading a directory or an entry's metadata failed during the walk.
    FilesystemError { path: String, detail: String },
}

/// The mathematical content of a `StatusError`.
pub enum StatusErrorView {
    PathOutsideRoot { path: Seq<char>, root: Seq<char> },
    LedgerUnavailable { detail: Seq<char> },
    ArtifactToolUnavailable { detail: Seq<char> },
    FilesystemError { path: Seq<char>, detail: Seq<char> },
}

impl View for StatusError {
    type V = StatusErrorView;

    open spec fn view(&self) -> StatusErrorView {
        match *self {
            StatusError::PathOutsideRoot { path, root } => StatusErrorView::PathOutsideRoot {
                path: path@,
                root: root@,
            },
            StatusError::LedgerUnavailable { detail } => StatusErrorView::LedgerUnavailable {
                detail: detail@,
            },
            StatusError::ArtifactToolUnavailable {
                detail,
            } => StatusErrorView::ArtifactToolUnavailable { detail: detail@ },
            StatusError::FilesystemError { path, detail } => StatusErrorView::FilesystemError {
                path: path@,
                detail: detail@,
            },
        }
    }
}

} // verus!
