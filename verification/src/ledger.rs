//! The ledger status aggregator: from the ledger's listing of its last
//! committed snapshot and its porcelain status lines to one status map.

use crate::error::{StatusError, StatusErrorView};
use crate::path::{normalize, normalized};
use crate::path_map::strictly_sorted;
use crate::status::{parse_git_status, porcelain_status, StatusCode, StatusMap};
use crate::text::{chars_of, line_views, lines_of, string_of, strips, text_lines, trim_chars, trimmed, Strip};
use vstd::prelude::*;
use vstd::string::StringExecFns;

verus! {

/// The path that a piece of a listing names: the piece without white space
/// around it and without double quotes around that.
pub open spec fn clean_path(text: Seq<char>) -> Seq<char> {
    trimmed(trimmed(text, strips(Strip::Space)), strips(Strip::Quote))
}

/// What a line records. A line of the snapshot listing is a path, recorded
/// as `Pushed`. A line of the scan is `XY <path>`: two columns of code, one
/// character more, then the path; a line too short for that records nothing.
pub open spec fn listed_entry(line: Seq<char>, scan: bool) -> Option<(Seq<char>, StatusCode)> {
    if !scan {
        Some((clean_path(line), StatusCode::Pushed))
    } else if line.len() < 3 {
        None
    } else {
        Some((clean_path(line.skip(3)), porcelain_status(line[0], line[1])))
    }
}

/// The key under which a line records its status: the normal form of its
/// path relative to `root`. `None` where the line records nothing.
pub open spec fn line_key(line: Seq<char>, root: Seq<char>, scan: bool) -> Option<Seq<char>> {
    match listed_entry(line, scan) {
        Some((path, _)) => if path.len() == 0 {
            None
        } else {
            normalized(path, root)
        },
        None => None,
    }
}

/// The map after one line. A line without a path changes nothing, and a path
/// outside `root` is a failure.
pub open spec fn apply_line(
    map: Map<Seq<char>, StatusCode>,
    line: Seq<char>,
    root: Seq<char>,
    scan: bool,
) -> Result<Map<Seq<char>, StatusCode>, StatusErrorView> {
    match listed_entry(line, scan) {
        None => Ok(map),
        Some((path, status)) => if path.len() == 0 {
            Ok(map)
        } else {
            match normalized(path, root) {
                None => Err(StatusErrorView::PathOutsideRoot { path, root }),
                Some(key) => Ok(map.insert(key, status)),
            }
        },
    }
}

/// The map after `lines`, each applied in turn to what the lines before it
/// left. The first failure ends it.
pub open spec fn apply_lines(
    start: Map<Seq<char>, StatusCode>,
    lines: Seq<Seq<char>>,
    root: Seq<char>,
    scan: bool,
) -> Result<Map<Seq<char>, StatusCode>, StatusErrorView>
    decreases lines.len(),
{
    if lines.len() == 0 {
        Ok(start)
    } else {
        match apply_lines(start, lines.drop_last(), root, scan) {
            Err(e) => Err(e),
            Ok(map) => apply_line(map, lines.last(), root, scan),
        }
    }
}

/// The ledger's status map: every path of the snapshot `listing` as
/// `Pushed`, then the statuses of the scan `status` laid over them.
pub open spec fn ledger_map(listing: Seq<char>, status: Seq<char>, root: Seq<char>) -> Result<
    Map<Seq<char>, StatusCode>,
    StatusErrorView,
> {
    match apply_lines(Map::empty(), text_lines(listing), root, false) {
        Err(e) => Err(e),
        Ok(seed) => apply_lines(seed, text_lines(status), root, true),
    }
}

/// Once a prefix of the lines fails, the whole fails in the same way.
pub proof fn lemma_line_failure_lasts(
    start: Map<Seq<char>, StatusCode>,
    lines: Seq<Seq<char>>,
    root: Seq<char>,
    scan: bool,
    k: int,
)
    requires
        0 <= k <= lines.len(),
        apply_lines(start, lines.take(k), root, scan) is Err,
    ensures
        apply_lines(start, lines, root, scan) == apply_lines(start, lines.take(k), root, scan),
    decreases lines.len() - k,
{
    if k == lines.len() {
        assert(lines.take(k) =~= lines);
    } else {
        assert(lines.take(k + 1).drop_last() =~= lines.take(k));
        lemma_line_failure_lasts(start, lines, root, scan, k + 1);
    }
}

/// The scan overrides the seed: a scan line that names a path gives that
/// path its status whatever the map held for it, and leaves every other path
/// as it was.
pub proof fn lemma_scan_overrides_seed(
    seed: Map<Seq<char>, StatusCode>,
    line: Seq<char>,
    root: Seq<char>,
)
    requires
        line_key(line, root, true) is Some,
    ensures
        apply_lines(seed, seq![line], root, true) == Ok::<
            Map<Seq<char>, StatusCode>,
            StatusErrorView,
        >(seed.insert(line_key(line, root, true)->0, porcelain_status(line[0], line[1]))),
{
    assert(seq![line].drop_last() =~= Seq::<Seq<char>>::empty());
    assert(apply_lines(seed, seq![line].drop_last(), root, true) == Ok::<
        Map<Seq<char>, StatusCode>,
        StatusErrorView,
    >(seed));
}

/// After the lines, a path has the status of the last line that names it,
/// and a path that no line names is as it was at the start.
pub proof fn lemma_last_line_wins(
    start: Map<Seq<char>, StatusCode>,
    lines: Seq<Seq<char>>,
    root: Seq<char>,
    scan: bool,
    key: Seq<char>,
)
    requires
        apply_lines(start, lines, root, scan) is Ok,
    ensures
        ({
            let map = apply_lines(start, lines, root, scan)->Ok_0;
            &&& (forall|i: int| 0 <= i < lines.len() ==> line_key(#[trigger] lines[i], root, scan)
                != Some(key)) ==> (map.contains_key(key) == start.contains_key(key) && (
            map.contains_key(key) ==> map[key] == start[key]))
            &&& forall|i: int|
                0 <= i < lines.len() && line_key(#[trigger] lines[i], root, scan) == Some(key) && (
                forall|j: int|
                    i < j < lines.len() ==> line_key(#[trigger] lines[j], root, scan) != Some(key))
                    ==> map.contains_key(key) && map[key] == (listed_entry(lines[i], scan)->0).1
        }),
    decreases lines.len(),
{
    if lines.len() > 0 {
        let init = lines.drop_last();
        lemma_last_line_wins(start, init, root, scan, key);
        let before = apply_lines(start, init, root, scan)->Ok_0;
        let map = apply_lines(start, lines, root, scan)->Ok_0;
        assert forall|i: int|
            0 <= i < lines.len() && line_key(#[trigger] lines[i], root, scan) == Some(key) && (
            forall|j: int|
                i < j < lines.len() ==> line_key(#[trigger] lines[j], root, scan) != Some(
                    key,
                )) implies map.contains_key(key) && map[key] == (listed_entry(lines[i], scan)->0).1 by {
            if i < lines.len() - 1 {
                assert(init[i] == lines[i]);
                assert forall|j: int| i < j < init.len() implies line_key(
                    #[trigger] init[j],
                    root,
                    scan,
                ) != Some(key) by {
                    assert(init[j] == lines[j]);
                }
                assert(line_key(lines[lines.len() - 1], root, scan) != Some(key));
            }
        }
        if forall|i: int|
            0 <= i < lines.len() ==> line_key(#[trigger] lines[i], root, scan) != Some(key) {
            assert forall|i: int| 0 <= i < init.len() implies line_key(
                #[trigger] init[i],
                root,
                scan,
            ) != Some(key) by {
                assert(init[i] == lines[i]);
            }
            assert(line_key(lines[lines.len() - 1], root, scan) != Some(key));
        }
    }
}

/// Lays the lines of `text` over `map`.
pub fn apply_listing(seed: StatusMap, text: &str, root: &str, scan: bool) -> (r: Result<
    StatusMap,
    StatusError,
>)
    ensures
        match r {
            Ok(out) => apply_lines(seed@, text_lines(text@), root@, scan) == Ok::<
                Map<Seq<char>, StatusCode>,
                StatusErrorView,
            >(out@),
            Err(e) => apply_lines(seed@, text_lines(text@), root@, scan) == Err::<
                Map<Seq<char>, StatusCode>,
                StatusErrorView,
            >(e@),
        },
{
    let lines = lines_of(text);
    let ghost all = text_lines(text@);
    let ghost start = seed@;
    let mut map = seed;
    let mut i: usize = 0;
    assert(all.take(0) =~= Seq::<Seq<char>>::empty());
    while i < lines.len()
        invariant
            i <= lines.len(),
            all == line_views(lines@),
            all == text_lines(text@),
            start == seed@,
            apply_lines(start, all.take(i as int), root@, scan) == Ok::<
                Map<Seq<char>, StatusCode>,
                StatusErrorView,
            >(map@),
        decreases lines.len() - i,
    {
        let line = &lines[i];
        proof {
            assert(all.take(i + 1).drop_last() =~= all.take(i as int));
            assert(all.take(i + 1).last() == line@);
        }
        let entry = if !scan {
            Some((trim_chars(&trim_chars(line, Strip::Space), Strip::Quote), StatusCode::Pushed))
        } else if line.len() < 3 {
            None
        } else {
            let mut rest: Vec<char> = Vec::new();
            let mut k: usize = 3;
            while k < line.len()
                invariant
                    3 <= k <= line.len(),
                    rest@ == line@.subrange(3, k as int),
                decreases line.len() - k,
            {
                rest.push(line[k]);
                assert(line@.subrange(3, k + 1) =~= line@.subrange(3, k as int).push(line@[k as int]));
                k += 1;
            }
            assert(rest@ =~= line@.skip(3));
            Some(
                (
                    trim_chars(&trim_chars(&rest, Strip::Space), Strip::Quote),
                    parse_git_status(line[0], line[1]),
                ),
            )
        };
        match entry {
            None => {},
            Some((path, status)) => {
                if path.len() > 0 {
                    let text = string_of(&path);
                    match normalize(text.as_str(), root) {
                        Ok(key) => {
                            map.insert(key, status);
                        },
                        Err(e) => {
                            proof {
                                lemma_line_failure_lasts(start, all, root@, scan, i + 1);
                            }
                            return Err(e);
                        },
                    }
                }
            },
        }
        i += 1;
    }
    proof {
        assert(all.take(i as int) =~= all);
    }
    Ok(map)
}

/// The ledger's status map, keyed by path relative to `repo_root`: every
/// path of the snapshot `listing` is seeded as `Pushed`, and the scan
/// `status` overwrites the seed where it names the same path and adds the
/// paths that it alone names. Fails with `PathOutsideRoot` where a line names
/// a path outside `repo_root`.
pub fn update_git_status_map(listing: &str, status: &str, repo_root: &str) -> (r: Result<
    StatusMap,
    StatusError,
>)
    ensures
        match r {
            Ok(map) => ledger_map(listing@, status@, repo_root@) == Ok::<
                Map<Seq<char>, StatusCode>,
                StatusErrorView,
            >(map@),
            Err(e) => ledger_map(listing@, status@, repo_root@) == Err::<
                Map<Seq<char>, StatusCode>,
                StatusErrorView,
            >(e@),
        },
{
    match apply_listing(StatusMap::new(), listing, repo_root, false) {
        Err(e) => Err(e),
        Ok(seed) => apply_listing(seed, status, repo_root, true),
    }
}

/// One path of a status map with its status.
#[derive(Debug)]
pub struct GitStatusEntry {
    pub path: String,
    pub status: StatusCode,
}

/// The paths of `entries`, in order.
pub open spec fn listed_paths(entries: Seq<GitStatusEntry>) -> Seq<Seq<char>> {
    Seq::new(entries.len(), |i: int| entries[i].path@)
}

/// The entries of `map`, each path once, in ascending order of path.
pub fn status_entries(map: &StatusMap) -> (entries: Vec<GitStatusEntry>)
    ensures
        strictly_sorted(listed_paths(entries@)),
        listed_paths(entries@).to_set() == map@.dom(),
        forall|i: int|
            0 <= i < entries@.len() ==> map@.contains_key((#[trigger] entries@[i]).path@)
                && entries@[i].status == map@[entries@[i].path@],
{
    let keys = map.keys();
    let ghost ordered = map.ordered_keys();
    let mut entries: Vec<GitStatusEntry> = Vec::new();
    let mut i: usize = 0;
    while i < keys.len()
        invariant
            i <= keys.len(),
            entries@.len() == i,
            keys@.len() == ordered.len(),
            forall|k: int| 0 <= k < keys@.len() ==> (#[trigger] keys@[k])@ == ordered[k],
            map@.dom() == ordered.to_set(),
            forall|k: int|
                0 <= k < i ==> (#[trigger] entries@[k]).path@ == ordered[k] && map@.contains_key(
                    ordered[k],
                ) && entries@[k].status == map@[ordered[k]],
        decreases keys.len() - i,
    {
        let path = keys[i].clone();
        proof {
            assert(ordered.contains(ordered[i as int]));
            assert(ordered.to_set().contains(ordered[i as int]));
        }
        match map.get(path.as_str()) {
            Some(status) => {
                entries.push(GitStatusEntry { path, status: *status });
            },
            None => {
                assert(false);
            },
        }
        i += 1;
    }
    proof {
        assert(listed_paths(entries@) =~= ordered);
    }
    entries
}

/// How a command of a collaborator ended: it could not be started, or it
/// ran and left an exit status and its output.
#[derive(Debug)]
pub enum CommandOutcome {
    NotRun { detail: String },
    Ran { success: bool, stdout: String, stderr: String },
}

/// The mathematical content of a `CommandOutcome`.
pub enum CommandOutcomeView {
    NotRun { detail: Seq<char> },
    Ran { success: bool, stdout: Seq<char>, stderr: Seq<char> },
}

impl View for CommandOutcome {
    type V = CommandOutcomeView;

    open spec fn view(&self) -> CommandOutcomeView {
        match *self {
            CommandOutcome::NotRun { detail } => CommandOutcomeView::NotRun { detail: detail@ },
            CommandOutcome::Ran { success, stdout, stderr } => CommandOutcomeView::Ran {
                success,
                stdout: stdout@,
                stderr: stderr@,
            },
        }
    }
}

/// What a ledger command printed. A command that did not start fails with
/// `not_started` followed by the reason, one that ran without success with
/// `not_done`.
pub open spec fn ledger_output(
    outcome: CommandOutcomeView,
    not_started: Seq<char>,
    not_done: Seq<char>,
) -> Result<Seq<char>, StatusErrorView> {
    match outcome {
        CommandOutcomeView::NotRun { detail } => Err(
            StatusErrorView::LedgerUnavailable { detail: not_started + detail },
        ),
        CommandOutcomeView::Ran { success, stdout, stderr } => if success {
            Ok(stdout)
        } else {
            Err(StatusErrorView::LedgerUnavailable { detail: not_done })
        },
    }
}

/// The root that the ledger names for a directory, from the outcome of the
/// command that asks for it: what it printed, without white space around it.
pub open spec fn named_root(toplevel: CommandOutcomeView) -> Result<Seq<char>, StatusErrorView> {
    match ledger_output(toplevel, "Failed to find git repository: "@, "Not a git repository"@) {
        Err(e) => Err(e),
        Ok(named) => {
            let root = trimmed(named, strips(Strip::Space));
            if root.len() == 0 {
                Err(StatusErrorView::LedgerUnavailable { detail: "Invalid git repository root"@ })
            } else {
                Ok(root)
            }
        },
    }
}

/// The ledger's root and status map for a directory, from the outcomes of
/// the three ledger commands: the one that names the root, the listing of
/// the last committed snapshot, and the scan of working tree and index.
pub open spec fn repo_git_status(
    toplevel: CommandOutcomeView,
    listing: CommandOutcomeView,
    status: CommandOutcomeView,
) -> Result<(Seq<char>, Map<Seq<char>, StatusCode>), StatusErrorView> {
    match named_root(toplevel) {
        Err(e) => Err(e),
        Ok(root) => match ledger_output(
            listing,
            "Failed to execute git ls-tree: "@,
            "Git ls-tree command failed"@,
        ) {
            Err(e) => Err(e),
            Ok(listed) => match ledger_output(
                status,
                "Failed to execute git status: "@,
                "Git status command failed"@,
            ) {
                Err(e) => Err(e),
                Ok(scanned) => match ledger_map(listed, scanned, root) {
                    Err(e) => Err(e),
                    Ok(map) => Ok((root, map)),
                },
            },
        },
    }
}

fn command_output<'a>(outcome: &'a CommandOutcome, not_started: &str, not_done: &str) -> (r: Result<
    &'a str,
    StatusError,
>)
    ensures
        match r {
            Ok(text) => ledger_output(outcome@, not_started@, not_done@) == Ok::<
                Seq<char>,
                StatusErrorView,
            >(text@),
            Err(e) => ledger_output(outcome@, not_started@, not_done@) == Err::<
                Seq<char>,
                StatusErrorView,
            >(e@),
        },
{
    match outcome {
        CommandOutcome::NotRun { detail } => {
            let mut message = not_started.to_owned();
            message.append(detail.as_str());
            Err(StatusError::LedgerUnavailable { detail: message })
        },
        CommandOutcome::Ran { success, stdout, stderr } => {
            if *success {
                Ok(stdout.as_str())
            } else {
                Err(StatusError::LedgerUnavailable { detail: not_done.to_owned() })
            }
        },
    }
}

/// The root of the ledger's working tree, from the outcome of the command
/// that names it. Fails with `LedgerUnavailable` where the command did not
/// run or did not succeed, or named nothing.
pub fn repo_root(toplevel: &CommandOutcome) -> (r: Result<String, StatusError>)
    ensures
        match r {
            Ok(root) => named_root(toplevel@) == Ok::<Seq<char>, StatusErrorView>(root@),
            Err(e) => named_root(toplevel@) == Err::<Seq<char>, StatusErrorView>(e@),
        },
{
    let named = match command_output(
        toplevel,
        "Failed to find git repository: ",
        "Not a git repository",
    ) {
        Ok(named) => named,
        Err(e) => {
            return Err(e);
        },
    };
    let root_chars = trim_chars(&chars_of(named), Strip::Space);
    if root_chars.len() == 0 {
        return Err(
            StatusError::LedgerUnavailable { detail: "Invalid git repository root".to_owned() },
        );
    }
    Ok(string_of(&root_chars))
}

/// The ledger's root and its status map, from the outcomes of the command
/// that names the root, of the listing of the last committed snapshot and of
/// the scan. Fails with `LedgerUnavailable` where a command did not run or
/// did not succeed, or names no root.
pub fn get_repo_git_status(
    toplevel: &CommandOutcome,
    listing: &CommandOutcome,
    status: &CommandOutcome,
) -> (r: Result<(String, StatusMap), StatusError>)
    ensures
        match r {
            Ok((root, map)) => repo_git_status(toplevel@, listing@, status@) == Ok::<
                (Seq<char>, Map<Seq<char>, StatusCode>),
                StatusErrorView,
            >((root@, map@)),
            Err(e) => repo_git_status(toplevel@, listing@, status@) == Err::<
                (Seq<char>, Map<Seq<char>, StatusCode>),
                StatusErrorView,
            >(e@),
        },
{
    let root = match repo_root(toplevel) {
        Ok(root) => root,
        Err(e) => {
            return Err(e);
        },
    };
    let listed = match command_output(
        listing,
        "Failed to execute git ls-tree: ",
        "Git ls-tree command failed",
    ) {
        Ok(listed) => listed,
        Err(e) => {
            return Err(e);
        },
    };
    let scanned = match command_output(
        status,
        "Failed to execute git status: ",
        "Git status command failed",
    ) {
        Ok(scanned) => scanned,
        Err(e) => {
            return Err(e);
        },
    };
    match update_git_status_map(listed, scanned, root.as_str()) {
        Ok(map) => Ok((root, map)),
        Err(e) => Err(e),
    }
}

} // verus!
