//! What the ledger reports of a working tree, as the status panel shows it:
//! the state of each changed file, a summary, branches and commits.

use crate::text::{chars_of, string_of, strips, trim_chars, trimmed, Strip};
use vstd::prelude::*;
use vstd::string::StringExecFns;

verus! {

/// The ledger's flags for one changed path: what differs between the last
/// commit and the index, and between the index and the working tree.
#[derive(Clone, Copy, Debug, PartialEq, Eq, Structural)]
pub struct StatusFlags {
    pub index_new: bool,
    pub index_modified: bool,
    pub index_deleted: bool,
    pub wt_new: bool,
    pub wt_modified: bool,
    pub wt_deleted: bool,
    pub wt_renamed: bool,
}

/// A path has staged changes when the index holds it as new, modified or
/// deleted.
pub open spec fn flags_staged(flags: StatusFlags) -> bool {
    flags.index_new || flags.index_modified || flags.index_deleted
}

/// The one state under which a changed file is shown: the first that holds
/// of untracked, staged, modified, deleted and renamed, else `unknown`.
pub open spec fn state_name(flags: StatusFlags) -> Seq<char> {
    if flags.wt_new {
        "untracked"@
    } else if flags_staged(flags) {
        "staged"@
    } else if flags.wt_modified {
        "modified"@
    } else if flags.wt_deleted {
        "deleted"@
    } else if flags.wt_renamed {
        "renamed"@
    } else {
        "unknown"@
    }
}

/// One changed file of the working tree.
#[derive(Debug)]
pub struct GitFile {
    pub path: String,
    pub status: String,
    pub is_staged: bool,
    pub is_untracked: bool,
    pub is_modified: bool,
    pub is_deleted: bool,
    pub is_renamed: bool,
}

/// The mathematical content of a `GitFile`.
pub struct GitFileView {
    pub path: Seq<char>,
    pub status: Seq<char>,
    pub is_staged: bool,
    pub is_untracked: bool,
    pub is_modified: bool,
    pub is_deleted: bool,
    pub is_renamed: bool,
}

impl View for GitFile {
    type V = GitFileView;

    open spec fn view(&self) -> GitFileView {
        GitFileView {
            path: self.path@,
            status: self.status@,
            is_staged: self.is_staged,
            is_untracked: self.is_untracked,
            is_modified: self.is_modified,
            is_deleted: self.is_deleted,
            is_renamed: self.is_renamed,
        }
    }
}

/// The file that `flags` describe at `path`.
pub open spec fn file_of(path: Seq<char>, flags: StatusFlags) -> GitFileView {
    GitFileView {
        path,
        status: state_name(flags),
        is_staged: flags_staged(flags),
        is_untracked: flags.wt_new,
        is_modified: flags.wt_modified,
        is_deleted: flags.wt_deleted,
        is_renamed: flags.wt_renamed,
    }
}

impl GitFile {
    /// The file that `flags` describe at `path`.
    pub fn from_flags(path: String, flags: StatusFlags) -> (file: GitFile)
        ensures
            file@ == file_of(path@, flags),
    {
        let is_staged = flags.index_new || flags.index_modified || flags.index_deleted;
        let status = if flags.wt_new {
            "untracked"
        } else if is_staged {
            "staged"
        } else if flags.wt_modified {
            "modified"
        } else if flags.wt_deleted {
            "deleted"
        } else if flags.wt_renamed {
            "renamed"
        } else {
            "unknown"
        };
        GitFile {
            path,
            status: status.to_owned(),
            is_staged,
            is_untracked: flags.wt_new,
            is_modified: flags.wt_modified,
            is_deleted: flags.wt_deleted,
            is_renamed: flags.wt_renamed,
        }
    }
}

/// The state of a working tree.
#[derive(Debug)]
pub struct GitStatus {
    pub files: Vec<GitFile>,
    pub current_branch: String,
    pub ahead: i32,
    pub behind: i32,
    pub has_untracked: bool,
    pub has_staged: bool,
    pub has_unstaged: bool,
}

/// The views of a vector of files.
pub open spec fn file_views(files: Seq<GitFile>) -> Seq<GitFileView> {
    Seq::new(files.len(), |i: int| files[i]@)
}

/// The files that the changes describe, in their order.
pub open spec fn files_of(changes: Seq<(String, StatusFlags)>) -> Seq<GitFileView> {
    Seq::new(changes.len(), |i: int| file_of(changes[i].0@, changes[i].1))
}

/// Some change has staged changes.
pub open spec fn any_staged(changes: Seq<(String, StatusFlags)>) -> bool {
    exists|i: int| 0 <= i < changes.len() && flags_staged((#[trigger] changes[i]).1)
}

/// Some change is an untracked file.
pub open spec fn any_untracked(changes: Seq<(String, StatusFlags)>) -> bool {
    exists|i: int| 0 <= i < changes.len() && (#[trigger] changes[i]).1.wt_new
}

/// Some change is modified or deleted in the working tree.
pub open spec fn any_unstaged(changes: Seq<(String, StatusFlags)>) -> bool {
    exists|i: int|
        0 <= i < changes.len() && ((#[trigger] changes[i]).1.wt_modified || changes[i].1.wt_deleted)
}

impl GitStatus {
    /// The state of a working tree on `current_branch` with the changes
    /// `changes`, `ahead` commits ahead of its upstream and `behind` behind.
    pub fn summarize(
        changes: Vec<(String, StatusFlags)>,
        current_branch: String,
        ahead: i32,
        behind: i32,
    ) -> (status: GitStatus)
        ensures
            file_views(status.files@) == files_of(changes@),
            status.current_branch@ == current_branch@,
            status.ahead == ahead,
            status.behind == behind,
            status.has_untracked == any_untracked(changes@),
            status.has_staged == any_staged(changes@),
            status.has_unstaged == any_unstaged(changes@),
    {
        let ghost all = changes@;
        let mut files: Vec<GitFile> = Vec::new();
        let mut has_untracked = false;
        let mut has_staged = false;
        let mut has_unstaged = false;
        for change in it: changes
            invariant
                it.seq() == all,
                files@.len() == it.index(),
                forall|k: int| 0 <= k < it.index() ==> (#[trigger] files@[k])@ == file_of(all[k].0@, all[k].1),
                has_untracked == any_untracked(all.take(it.index() as int)),
                has_staged == any_staged(all.take(it.index() as int)),
                has_unstaged == any_unstaged(all.take(it.index() as int)),
        {
            let ghost i = it.index() as int;
            let ghost before = all.take(i);
            let ghost after = all.take(i + 1);
            let (path, flags) = change;
            proof {
                assert(after[i] == all[i]);
                assert forall|k: int| 0 <= k < i implies #[trigger] after[k] == before[k] by {}
                if any_untracked(before) {
                    let k = choose|k: int| 0 <= k < before.len() && (#[trigger] before[k]).1.wt_new;
                    assert(after[k].1.wt_new);
                }
                if any_staged(before) {
                    let k = choose|k: int|
                        0 <= k < before.len() && flags_staged((#[trigger] before[k]).1);
                    assert(flags_staged(after[k].1));
                }
                if any_unstaged(before) {
                    let k = choose|k: int|
                        0 <= k < before.len() && ((#[trigger] before[k]).1.wt_modified
                            || before[k].1.wt_deleted);
                    assert(after[k].1.wt_modified || after[k].1.wt_deleted);
                }
                if any_untracked(after) && !flags.wt_new {
                    let k = choose|k: int| 0 <= k < after.len() && (#[trigger] after[k]).1.wt_new;
                    assert(before[k].1.wt_new);
                }
                if any_staged(after) && !flags_staged(flags) {
                    let k = choose|k: int|
                        0 <= k < after.len() && flags_staged((#[trigger] after[k]).1);
                    assert(flags_staged(before[k].1));
                }
                if any_unstaged(after) && !(flags.wt_modified || flags.wt_deleted) {
                    let k = choose|k: int|
                        0 <= k < after.len() && ((#[trigger] after[k]).1.wt_modified
                            || after[k].1.wt_deleted);
                    assert(before[k].1.wt_modified || before[k].1.wt_deleted);
                }
            }
            if flags.wt_new {
                has_untracked = true;
            }
            if flags.index_new || flags.index_modified || flags.index_deleted {
                has_staged = true;
            }
            if flags.wt_modified || flags.wt_deleted {
                has_unstaged = true;
            }
            files.push(GitFile::from_flags(path, flags));
        }
        proof {
            assert(all.take(all.len() as int) =~= all);
            assert(file_views(files@) =~= files_of(all));
        }
        GitStatus { files, current_branch, ahead, behind, has_untracked, has_staged, has_unstaged }
    }
}

/// Whether any of the changes is staged: only then is there something to
/// commit.
pub fn has_staged_changes(changes: &Vec<(String, StatusFlags)>) -> (r: bool)
    ensures
        r == any_staged(changes@),
{
    let mut i: usize = 0;
    while i < changes.len()
        invariant
            i <= changes.len(),
            forall|k: int| 0 <= k < i ==> !flags_staged((#[trigger] changes@[k]).1),
        decreases changes.len() - i,
    {
        let flags = changes[i].1;
        if flags.index_new || flags.index_modified || flags.index_deleted {
            return true;
        }
        i += 1;
    }
    false
}

/// `text` without white space at either end.
pub open spec fn stripped(text: Seq<char>) -> Seq<char> {
    trimmed(text, strips(Strip::Space))
}

/// The message of a commit: the summary, and after an empty line the
/// description where there is one, each without white space around it.
pub open spec fn commit_text(summary: Seq<char>, description: Seq<char>) -> Seq<char> {
    if stripped(description).len() == 0 {
        stripped(summary)
    } else {
        stripped(summary) + "\n\n"@ + stripped(description)
    }
}

/// The message of a commit with the given summary and description. A
/// summary that holds nothing but white space is refused.
pub fn commit_message(summary: &str, description: &str) -> (r: Result<String, String>)
    ensures
        match r {
            Ok(message) => stripped(summary@).len() > 0 && message@ == commit_text(
                summary@,
                description@,
            ),
            Err(reason) => stripped(summary@).len() == 0 && reason@
                == "Commit summary cannot be empty"@,
        },
{
    let head = trim_chars(&chars_of(summary), Strip::Space);
    if head.len() == 0 {
        return Err("Commit summary cannot be empty".to_owned());
    }
    let body = trim_chars(&chars_of(description), Strip::Space);
    let mut message = string_of(&head);
    if body.len() > 0 {
        message.append("\n\n");
        let rest = string_of(&body);
        message.append(rest.as_str());
    }
    Ok(message)
}

/// How a commit ended.
#[derive(Debug)]
pub struct CommitResult {
    pub success: bool,
    pub message: String,
    pub commit_id: Option<String>,
}

impl CommitResult {
    /// The result of a commit that was made under the id `commit_id`.
    pub fn committed(commit_id: String) -> (result: CommitResult)
        ensures
            result.success,
            result.message@ == "Commit successful"@,
            result.commit_id == Some(commit_id),
    {
        CommitResult {
            success: true,
            message: "Commit successful".to_owned(),
            commit_id: Some(commit_id),
        }
    }
}

/// A branch of the ledger.
#[derive(Debug)]
pub struct GitBranch {
    pub name: String,
    pub is_current: bool,
    pub is_remote: bool,
    pub upstream: Option<String>,
}

impl GitBranch {
    /// The local branch `name`, which is the current one when it bears the
    /// name of the branch that is checked out.
    pub fn local(name: String, current_branch: &str, upstream: Option<String>) -> (branch:
        GitBranch)
        ensures
            branch.name@ == name@,
            branch.is_current == (name@ == current_branch@),
            !branch.is_remote,
            branch.upstream == upstream,
    {
        let is_current = crate::text::str_eq(name.as_str(), current_branch);
        GitBranch { name, is_current, is_remote: false, upstream }
    }

    /// The remote branch `name`. A remote branch is never the current one and
    /// has no upstream.
    pub fn remote(name: String) -> (branch: GitBranch)
        ensures
            branch.name@ == name@,
            !branch.is_current,
            branch.is_remote,
            branch.upstream is None,
    {
        GitBranch { name, is_current: false, is_remote: true, upstream: None }
    }
}

} // verus!
