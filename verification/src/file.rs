//! The reconciliation engine: one status record for each visible entry of a
//! directory walk, from the ledger's and the artifact tracker's status maps.

use crate::dvc::{diff_result, dvc_diff};
use crate::error::{StatusError, StatusErrorView};
use crate::ledger::{get_repo_git_status, repo_git_status, CommandOutcome, CommandOutcomeView};
use crate::path::{
    join_path, join_segments, lemma_relative_segments_plain, lemma_split_join, normalize, normalized,
    relative_parts, relative_segments, seg_views, split_segments,
};
use crate::path_map::{lemma_sorted_keys_unique, string_views, strictly_sorted, PathMap, PathSet};
use crate::sidecar::{check_dvc_file, has_sidecar, is_sidecar, is_sidecar_path, sidecar_for, sidecar_path};
use crate::status::{StatusCode, StatusMap};
use crate::text::{chars_equal, chars_of, string_of};
use vstd::prelude::*;

verus! {

/// What a directory walk saw of one entry. A link is reported as a link,
/// whatever it points to.
#[derive(Debug)]
pub struct WalkEntry {
    pub path: String,
    pub size: u64,
    pub is_directory: bool,
    pub is_symlink: bool,
}

/// Why the walk could not read an entry.
#[derive(Clone, Copy, Debug, PartialEq, Eq, Structural)]
pub enum WalkFailureKind {
    SymlinkLoop,
    PermissionDenied,
    Other,
}

/// One step of a directory walk: an entry, or a failure to read one.
#[derive(Debug)]
pub enum WalkEvent {
    Found(WalkEntry),
    Failed { path: String, kind: WalkFailureKind, detail: String },
}

/// The mathematical content of a `WalkEntry`.
pub struct WalkEntryView {
    pub path: Seq<char>,
    pub size: u64,
    pub is_directory: bool,
    pub is_symlink: bool,
}

/// The mathematical content of a `WalkEvent`.
pub enum WalkEventView {
    Found(WalkEntryView),
    Failed { path: Seq<char>, kind: WalkFailureKind, detail: Seq<char> },
}

impl View for WalkEntry {
    type V = WalkEntryView;

    open spec fn view(&self) -> WalkEntryView {
        WalkEntryView {
            path: self.path@,
            size: self.size,
            is_directory: self.is_directory,
            is_symlink: self.is_symlink,
        }
    }
}

impl View for WalkEvent {
    type V = WalkEventView;

    open spec fn view(&self) -> WalkEventView {
        match *self {
            WalkEvent::Found(entry) => WalkEventView::Found(entry@),
            WalkEvent::Failed { path, kind, detail } => WalkEventView::Failed {
                path: path@,
                kind,
                detail: detail@,
            },
        }
    }
}

/// The status record of one visible entry. `path` is relative to the
/// directory that was browsed.
#[derive(Debug)]
pub struct FileEntry {
    pub path: String,
    pub size: u64,
    pub is_directory: bool,
    pub has_dvc_file: bool,
    pub git_status: StatusCode,
}

/// The mathematical content of a `FileEntry`.
pub struct FileEntryView {
    pub path: Seq<char>,
    pub size: u64,
    pub is_directory: bool,
    pub has_dvc_file: bool,
    pub git_status: StatusCode,
}

impl View for FileEntry {
    type V = FileEntryView;

    open spec fn view(&self) -> FileEntryView {
        FileEntryView {
            path: self.path@,
            size: self.size,
            is_directory: self.is_directory,
            has_dvc_file: self.has_dvc_file,
            git_status: self.git_status,
        }
    }
}

/// The views of a vector of events.
pub open spec fn event_views(events: Seq<WalkEvent>) -> Seq<WalkEventView> {
    Seq::new(events.len(), |i: int| events[i]@)
}

/// The views of a vector of entries.
pub open spec fn entry_views(entries: Seq<FileEntry>) -> Seq<FileEntryView> {
    Seq::new(entries.len(), |i: int| entries[i]@)
}

/// Everything a reconciliation reads besides the walk itself.
pub struct Scope {
    /// The directory that was browsed.
    pub browse_root: Seq<char>,
    /// The root of the ledger's working tree, to which its map is keyed.
    pub ledger_root: Seq<char>,
    pub ledger: Map<Seq<char>, StatusCode>,
    pub artifacts: Map<Seq<char>, StatusCode>,
    /// Names of directories that are left out.
    pub ignore: Seq<Seq<char>>,
    /// The paths that exist, in normal form relative to `browse_root`.
    pub known: Set<Seq<char>>,
}

/// Some segment begins with a dot.
pub open spec fn has_hidden_segment(segs: Seq<Seq<char>>) -> bool {
    exists|i: int| 0 <= i < segs.len() && (#[trigger] segs[i]).len() > 0 && segs[i][0] == '.'
}

/// The entry's own name: the last segment, or nothing for the root.
pub open spec fn entry_name(segs: Seq<Seq<char>>) -> Seq<char> {
    if segs.len() > 0 {
        segs.last()
    } else {
        Seq::empty()
    }
}

/// The ledger's status for an entry: that of its sidecar where it has one,
/// else its own, and `Untracked` where the ledger has none.
pub open spec fn ledger_status(
    path: Seq<char>,
    is_directory: bool,
    has_dvc_file: bool,
    ledger_root: Seq<char>,
    ledger: Map<Seq<char>, StatusCode>,
) -> Result<StatusCode, StatusErrorView> {
    let lookup = if has_dvc_file {
        sidecar_path(path, is_directory)
    } else {
        path
    };
    match normalized(lookup, ledger_root) {
        None => Err(StatusErrorView::PathOutsideRoot { path: lookup, root: ledger_root }),
        Some(key) => Ok(
            if ledger.contains_key(key) {
                ledger[key]
            } else {
                StatusCode::Untracked
            },
        ),
    }
}

/// The artifact tracker's status for `path` where it has one, else `base`.
pub open spec fn artifact_override(
    path: Seq<char>,
    ledger_root: Seq<char>,
    artifacts: Map<Seq<char>, StatusCode>,
    base: StatusCode,
) -> StatusCode {
    match normalized(path, ledger_root) {
        Some(key) => if artifacts.contains_key(key) {
            artifacts[key]
        } else {
            base
        },
        None => base,
    }
}

/// What becomes of one step of the walk.
pub enum Outcome {
    Skip,
    Emit(FileEntryView),
    Fail(StatusErrorView),
}

/// What becomes of an entry. Links are skipped, and so is an entry with a
/// hidden segment in its path below the browsed directory, a directory whose
/// name is on the ignore list, and a sidecar. The others are emitted with the
/// ledger's status, which the artifact tracker's status overrides where the
/// entry has a sidecar.
#[verifier::opaque]
pub open spec fn entry_outcome(entry: WalkEntryView, scope: Scope) -> Outcome {
    if entry.is_symlink {
        Outcome::Skip
    } else {
        match relative_segments(entry.path, scope.browse_root) {
            None => Outcome::Fail(
                StatusErrorView::PathOutsideRoot { path: entry.path, root: scope.browse_root },
            ),
            Some(segs) => {
                let rel = join_segments(segs);
                if has_hidden_segment(segs) || (entry.is_directory && scope.ignore.contains(
                    entry_name(segs),
                )) || is_sidecar_path(rel) {
                    Outcome::Skip
                } else {
                    let has = has_sidecar(
                        entry.path,
                        entry.is_directory,
                        scope.browse_root,
                        scope.known,
                    );
                    match ledger_status(
                        entry.path,
                        entry.is_directory,
                        has,
                        scope.ledger_root,
                        scope.ledger,
                    ) {
                        Err(e) => Outcome::Fail(e),
                        Ok(base) => Outcome::Emit(
                            FileEntryView {
                                path: rel,
                                size: entry.size,
                                is_directory: entry.is_directory,
                                has_dvc_file: has,
                                git_status: if has {
                                    artifact_override(
                                        entry.path,
                                        scope.ledger_root,
                                        scope.artifacts,
                                        base,
                                    )
                                } else {
                                    base
                                },
                            },
                        ),
                    }
                }
            },
        }
    }
}

/// What becomes of one step of the walk. A link cycle and an entry that may
/// not be read are passed over; any other failure ends the query.
pub open spec fn event_outcome(event: WalkEventView, scope: Scope) -> Outcome {
    match event {
        WalkEventView::Found(entry) => entry_outcome(entry, scope),
        WalkEventView::Failed { path, kind, detail } => if kind == WalkFailureKind::Other {
            Outcome::Fail(StatusErrorView::FilesystemError { path, detail })
        } else {
            Outcome::Skip
        },
    }
}

/// The records of a walk by path, or the failure of the first step that
/// fails. Of two records for one path the later stays.
pub open spec fn reconciled(events: Seq<WalkEventView>, scope: Scope) -> Result<
    Map<Seq<char>, FileEntryView>,
    StatusErrorView,
>
    decreases events.len(),
{
    if events.len() == 0 {
        Ok(Map::empty())
    } else {
        match reconciled(events.drop_last(), scope) {
            Err(e) => Err(e),
            Ok(records) => match event_outcome(events.last(), scope) {
                Outcome::Skip => Ok(records),
                Outcome::Emit(record) => Ok(records.insert(record.path, record)),
                Outcome::Fail(e) => Err(e),
            },
        }
    }
}

/// The normal forms, relative to `root`, of the paths that the walk found.
pub open spec fn known_paths(events: Seq<WalkEventView>, root: Seq<char>) -> Set<Seq<char>>
    decreases events.len(),
{
    if events.len() == 0 {
        Set::empty()
    } else {
        let before = known_paths(events.drop_last(), root);
        match events.last() {
            WalkEventView::Found(entry) => match normalized(entry.path, root) {
                Some(key) => before.insert(key),
                None => before,
            },
            WalkEventView::Failed { .. } => before,
        }
    }
}

/// The paths of `entries`, in order.
pub open spec fn entry_paths(entries: Seq<FileEntryView>) -> Seq<Seq<char>> {
    Seq::new(entries.len(), |i: int| entries[i].path)
}

/// `listing` holds the records of `records`, each once, in ascending order of
/// path.
pub open spec fn is_listing_of(
    listing: Seq<FileEntryView>,
    records: Map<Seq<char>, FileEntryView>,
) -> bool {
    &&& strictly_sorted(entry_paths(listing))
    &&& forall|i: int|
        0 <= i < listing.len() ==> records.contains_key((#[trigger] listing[i]).path)
            && records[listing[i].path] == listing[i]
    &&& forall|k: Seq<char>| #[trigger]
        records.contains_key(k) ==> exists|i: int|
            0 <= i < listing.len() && (#[trigger] listing[i]).path == k
}

/// The views of the records in a map.
pub open spec fn record_views(records: Map<Seq<char>, FileEntry>) -> Map<Seq<char>, FileEntryView> {
    Map::new(|k: Seq<char>| records.contains_key(k), |k: Seq<char>| records[k]@)
}

/// The scope of a reconciliation over `events`.
pub open spec fn scope_of(
    events: Seq<WalkEventView>,
    browse_root: Seq<char>,
    ledger_root: Seq<char>,
    ledger: Map<Seq<char>, StatusCode>,
    artifacts: Map<Seq<char>, StatusCode>,
    ignore: Seq<Seq<char>>,
) -> Scope {
    Scope {
        browse_root,
        ledger_root,
        ledger,
        artifacts,
        ignore,
        known: known_paths(events, browse_root),
    }
}

/// Every record stands under its own path.
pub proof fn lemma_records_keyed(events: Seq<WalkEventView>, scope: Scope)
    ensures
        reconciled(events, scope) matches Ok(records) ==> forall|k: Seq<char>| #[trigger]
            records.contains_key(k) ==> records[k].path == k,
    decreases events.len(),
{
    if events.len() > 0 {
        lemma_records_keyed(events.drop_last(), scope);
    }
}

/// The paths that the walk found, in normal form relative to `root`.
pub fn collect_known(events: &Vec<WalkEvent>, root: &str) -> (known: PathSet)
    ensures
        known@ == known_paths(event_views(events@), root@),
{
    let ghost all = event_views(events@);
    let mut known = PathSet::new();
    let mut i: usize = 0;
    assert(all.take(0) =~= Seq::<WalkEventView>::empty());
    while i < events.len()
        invariant
            i <= events.len(),
            all == event_views(events@),
            known@ == known_paths(all.take(i as int), root@),
        decreases events.len() - i,
    {
        proof {
            assert(all.take(i + 1).drop_last() =~= all.take(i as int));
            assert(all.take(i + 1).last() == events@[i as int]@);
        }
        match &events[i] {
            WalkEvent::Found(entry) => {
                match normalize(entry.path.as_str(), root) {
                    Ok(key) => {
                        known.insert(key);
                    },
                    Err(_) => {},
                }
            },
            WalkEvent::Failed { .. } => {},
        }
        i += 1;
    }
    proof {
        assert(all.take(i as int) =~= all);
    }
    known
}

/// The ledger's status for `path`: that of its sidecar where `has_dvc_file`
/// says it has one, else its own, and `Untracked` where the ledger has none.
/// Fails with `PathOutsideRoot` when the path that is looked up does not lie
/// under `repo_root`.
pub fn get_git_status_for_path(
    path: &str,
    is_directory: bool,
    repo_root: &str,
    git_status_map: &StatusMap,
    has_dvc_file: bool,
) -> (r: Result<StatusCode, StatusError>)
    requires
        has_dvc_file ==> !is_sidecar_path(path@),
    ensures
        match r {
            Ok(status) => ledger_status(path@, is_directory, has_dvc_file, repo_root@, git_status_map@)
                == Ok::<StatusCode, StatusErrorView>(status),
            Err(e) => ledger_status(path@, is_directory, has_dvc_file, repo_root@, git_status_map@)
                == Err::<StatusCode, StatusErrorView>(e@),
        },
{
    let looked_up = if has_dvc_file {
        let sidecar = sidecar_for(path, is_directory);
        normalize(sidecar.as_str(), repo_root)
    } else {
        normalize(path, repo_root)
    };
    match looked_up {
        Err(e) => Err(e),
        Ok(key) => match git_status_map.get(key.as_str()) {
            Some(status) => Ok(*status),
            None => Ok(StatusCode::Untracked),
        },
    }
}

fn any_hidden(parts: &Vec<Vec<char>>) -> (r: bool)
    ensures
        r == has_hidden_segment(seg_views(parts@)),
{
    let ghost segs = seg_views(parts@);
    let mut i: usize = 0;
    while i < parts.len()
        invariant
            i <= parts.len(),
            segs == seg_views(parts@),
            forall|k: int| 0 <= k < i ==> !((#[trigger] segs[k]).len() > 0 && segs[k][0] == '.'),
        decreases parts.len() - i,
    {
        if parts[i].len() > 0 && parts[i][0] == '.' {
            assert(segs[i as int].len() > 0 && segs[i as int][0] == '.');
            return true;
        }
        i += 1;
    }
    false
}

fn name_ignored(parts: &Vec<Vec<char>>, ignore_prefixes: &Vec<String>) -> (r: bool)
    ensures
        r == string_views(ignore_prefixes@).contains(entry_name(seg_views(parts@))),
{
    let ghost names = string_views(ignore_prefixes@);
    let ghost name = entry_name(seg_views(parts@));
    let empty: Vec<char> = Vec::new();
    let own: &Vec<char> = if parts.len() > 0 {
        &parts[parts.len() - 1]
    } else {
        &empty
    };
    assert(own@ == name);
    let mut i: usize = 0;
    while i < ignore_prefixes.len()
        invariant
            i <= ignore_prefixes.len(),
            names == string_views(ignore_prefixes@),
            name == entry_name(seg_views(parts@)),
            own@ == name,
            forall|k: int| 0 <= k < i ==> names[k] != name,
        decreases ignore_prefixes.len() - i,
    {
        let candidate = chars_of(ignore_prefixes[i].as_str());
        if chars_equal(&candidate, own) {
            assert(names[i as int] == name);
            return true;
        }
        i += 1;
    }
    false
}

/// What becomes of `entry`: `Ok(None)` where it is skipped, its record where
/// it is emitted, and the failure where it cannot be placed under a root.
pub fn entry_record(
    entry: &WalkEntry,
    browse_root: &str,
    ledger_root: &str,
    git_status_map: &StatusMap,
    dvc_status_map: &StatusMap,
    ignore_prefixes: &Vec<String>,
    known: &PathSet,
) -> (r: Result<Option<FileEntry>, StatusError>)
    ensures
        match r {
            Ok(None) => entry_outcome(
                entry@,
                Scope {
                    browse_root: browse_root@,
                    ledger_root: ledger_root@,
                    ledger: git_status_map@,
                    artifacts: dvc_status_map@,
                    ignore: string_views(ignore_prefixes@),
                    known: known@,
                },
            ) == Outcome::Skip,
            Ok(Some(record)) => entry_outcome(
                entry@,
                Scope {
                    browse_root: browse_root@,
                    ledger_root: ledger_root@,
                    ledger: git_status_map@,
                    artifacts: dvc_status_map@,
                    ignore: string_views(ignore_prefixes@),
                    known: known@,
                },
            ) == Outcome::Emit(record@),
            Err(e) => entry_outcome(
                entry@,
                Scope {
                    browse_root: browse_root@,
                    ledger_root: ledger_root@,
                    ledger: git_status_map@,
                    artifacts: dvc_status_map@,
                    ignore: string_views(ignore_prefixes@),
                    known: known@,
                },
            ) == Outcome::Fail(e@),
        },
{
    proof {
        reveal(entry_outcome);
    }
    if entry.is_symlink {
        return Ok(None);
    }
    let parts = match relative_parts(entry.path.as_str(), browse_root) {
        Ok(parts) => parts,
        Err(e) => {
            return Err(e);
        },
    };
    let rel = join_path(&parts);
    if any_hidden(&parts) || (entry.is_directory && name_ignored(&parts, ignore_prefixes))
        || is_sidecar(rel.as_str()) {
        return Ok(None);
    }
    let has = check_dvc_file(entry.path.as_str(), entry.is_directory, browse_root, known);
    let base = match get_git_status_for_path(
        entry.path.as_str(),
        entry.is_directory,
        ledger_root,
        git_status_map,
        has,
    ) {
        Ok(base) => base,
        Err(e) => {
            return Err(e);
        },
    };
    let status = if has {
        match normalize(entry.path.as_str(), ledger_root) {
            Ok(key) => match dvc_status_map.get(key.as_str()) {
                Some(status) => *status,
                None => base,
            },
            Err(_) => base,
        }
    } else {
        base
    };
    Ok(
        Some(
            FileEntry {
                path: rel,
                size: entry.size,
                is_directory: entry.is_directory,
                has_dvc_file: has,
                git_status: status,
            },
        ),
    )
}

/// One status record for each visible entry of the walk `events` of
/// `browse_root`, in ascending order of path. The ledger's map is keyed
/// relative to `ledger_root`, and so is the artifact tracker's. The first
/// step that fails ends the query with its failure.
pub fn list_file_entries(
    events: &Vec<WalkEvent>,
    browse_root: &str,
    ledger_root: &str,
    git_status_map: &StatusMap,
    dvc_status_map: &StatusMap,
    ignore_prefixes: &Vec<String>,
) -> (r: Result<Vec<FileEntry>, StatusError>)
    ensures
        match r {
            Ok(files) => reconciled(
                event_views(events@),
                scope_of(
                    event_views(events@),
                    browse_root@,
                    ledger_root@,
                    git_status_map@,
                    dvc_status_map@,
                    string_views(ignore_prefixes@),
                ),
            ) matches Ok(records) && is_listing_of(entry_views(files@), records),
            Err(e) => reconciled(
                event_views(events@),
                scope_of(
                    event_views(events@),
                    browse_root@,
                    ledger_root@,
                    git_status_map@,
                    dvc_status_map@,
                    string_views(ignore_prefixes@),
                ),
            ) == Err::<Map<Seq<char>, FileEntryView>, StatusErrorView>(e@),
        },
{
    let ghost all = event_views(events@);
    let ghost scope = scope_of(
        all,
        browse_root@,
        ledger_root@,
        git_status_map@,
        dvc_status_map@,
        string_views(ignore_prefixes@),
    );
    let known = collect_known(events, browse_root);
    let mut records: PathMap<FileEntry> = PathMap::new();
    let mut i: usize = 0;
    proof {
        assert(all.take(0) =~= Seq::<WalkEventView>::empty());
        assert(record_views(records@) =~= Map::<Seq<char>, FileEntryView>::empty());
    }
    while i < events.len()
        invariant
            i <= events.len(),
            all == event_views(events@),
            scope == scope_of(
                all,
                browse_root@,
                ledger_root@,
                git_status_map@,
                dvc_status_map@,
                string_views(ignore_prefixes@),
            ),
            known@ == scope.known,
            reconciled(all.take(i as int), scope) == Ok::<
                Map<Seq<char>, FileEntryView>,
                StatusErrorView,
            >(record_views(records@)),
        decreases events.len() - i,
    {
        proof {
            assert(all.take(i + 1).drop_last() =~= all.take(i as int));
            assert(all.take(i + 1).last() == events@[i as int]@);
        }
        let ghost before = record_views(records@);
        match &events[i] {
            WalkEvent::Found(entry) => {
                match entry_record(
                    entry,
                    browse_root,
                    ledger_root,
                    git_status_map,
                    dvc_status_map,
                    ignore_prefixes,
                    &known,
                ) {
                    Ok(None) => {},
                    Ok(Some(record)) => {
                        let key = record.path.clone();
                        records.insert(key, record);
                        assert(record_views(records@) =~= before.insert(record@.path, record@));
                    },
                    Err(e) => {
                        proof {
                            lemma_failure_lasts(all, scope, i + 1);
                        }
                        return Err(e);
                    },
                }
            },
            WalkEvent::Failed { path, kind, detail } => {
                if *kind == WalkFailureKind::Other {
                    proof {
                        lemma_failure_lasts(all, scope, i + 1);
                    }
                    return Err(
                        StatusError::FilesystemError { path: path.clone(), detail: detail.clone() },
                    );
                }
            },
        }
        i += 1;
    }
    proof {
        assert(all.take(i as int) =~= all);
        lemma_records_keyed(all, scope);
    }
    let ghost expected = record_views(records@);
    let ghost keys = records.ordered_keys();
    let files = records.into_values();
    proof {
        let listing = entry_views(files@);
        assert(entry_paths(listing) =~= keys) by {
            assert forall|k: int| 0 <= k < listing.len() implies entry_paths(listing)[k] == keys[k] by {
                assert(keys.contains(keys[k]));
                assert(expected.contains_key(keys[k]));
            }
        }
        assert forall|k: int| 0 <= k < listing.len() implies expected.contains_key(
            (#[trigger] listing[k]).path,
        ) && expected[listing[k].path] == listing[k] by {
            assert(keys.contains(keys[k]));
            assert(entry_paths(listing)[k] == keys[k]);
        }
        assert forall|k: Seq<char>| #[trigger] expected.contains_key(k) implies exists|j: int|
            0 <= j < listing.len() && (#[trigger] listing[j]).path == k by {
            let j = keys.index_of(k);
            assert(keys[j] == k);
            assert(entry_paths(listing)[j] == keys[j]);
        }
    }
    Ok(files)
}

/// The records of a map have one listing only.
pub proof fn lemma_listing_unique(
    first: Seq<FileEntryView>,
    second: Seq<FileEntryView>,
    records: Map<Seq<char>, FileEntryView>,
)
    requires
        is_listing_of(first, records),
        is_listing_of(second, records),
    ensures
        first == second,
{
    let a = entry_paths(first);
    let b = entry_paths(second);
    assert forall|k: Seq<char>| a.to_set().contains(k) == b.to_set().contains(k) by {
        if a.contains(k) {
            let i = a.index_of(k);
            assert(records.contains_key(first[i].path));
            let j = choose|j: int| 0 <= j < second.len() && (#[trigger] second[j]).path == k;
            assert(b[j] == k);
        }
        if b.contains(k) {
            let i = b.index_of(k);
            assert(records.contains_key(second[i].path));
            let j = choose|j: int| 0 <= j < first.len() && (#[trigger] first[j]).path == k;
            assert(a[j] == k);
        }
    }
    assert(a.to_set() =~= b.to_set());
    lemma_sorted_keys_unique(a, b);
    assert(first.len() == a.len() && second.len() == b.len());
    assert forall|i: int| 0 <= i < first.len() implies first[i] == second[i] by {
        assert(a[i] == b[i]);
        assert(records[first[i].path] == first[i]);
        assert(records[second[i].path] == second[i]);
    }
    assert(first =~= second);
}

/// Reconciling is repeatable: two listings that answer one walk in one scope
/// are equal, record by record and in order.
pub proof fn lemma_reconcile_repeatable(
    events: Seq<WalkEventView>,
    scope: Scope,
    first: Seq<FileEntryView>,
    second: Seq<FileEntryView>,
)
    requires
        reconciled(events, scope) matches Ok(records) && is_listing_of(first, records),
        reconciled(events, scope) matches Ok(records) && is_listing_of(second, records),
    ensures
        first == second,
{
    lemma_listing_unique(first, second, reconciled(events, scope)->Ok_0);
}

/// An entry with a hidden segment in its path below the browsed directory is
/// never emitted, be the segment an ancestor's name or the entry's own.
pub proof fn lemma_hidden_entry_skipped(entry: WalkEntryView, scope: Scope)
    requires
        relative_segments(entry.path, scope.browse_root) matches Some(segs) && has_hidden_segment(
            segs,
        ),
    ensures
        entry_outcome(entry, scope) == Outcome::Skip,
{
    reveal(entry_outcome);
}

/// The path of an emitted record has no hidden segment and is no sidecar.
pub proof fn lemma_emitted_path_visible(entry: WalkEntryView, scope: Scope)
    requires
        entry_outcome(entry, scope) is Emit,
    ensures
        !has_hidden_segment(split_segments(entry_outcome(entry, scope)->Emit_0.path)),
        !is_sidecar_path(entry_outcome(entry, scope)->Emit_0.path),
{
    reveal(entry_outcome);
    let segs = relative_segments(entry.path, scope.browse_root)->0;
    lemma_relative_segments_plain(entry.path, scope.browse_root);
    if segs.len() > 0 {
        lemma_split_join(segs);
    } else {
        let parts = split_segments(join_segments(segs));
        assert(parts =~= seq![Seq::<char>::empty()]);
        assert forall|i: int| 0 <= i < parts.len() implies !((#[trigger] parts[i]).len() > 0
            && parts[i][0] == '.') by {}
    }
}

/// No record of a reconciliation has a hidden segment in its path, and none
/// is a sidecar.
pub proof fn lemma_hidden_never_listed(events: Seq<WalkEventView>, scope: Scope)
    ensures
        reconciled(events, scope) matches Ok(records) ==> forall|k: Seq<char>| #[trigger]
            records.contains_key(k) ==> !has_hidden_segment(split_segments(k)) && !is_sidecar_path(
                k,
            ),
    decreases events.len(),
{
    if events.len() > 0 {
        lemma_hidden_never_listed(events.drop_last(), scope);
        match events.last() {
            WalkEventView::Found(entry) => {
                if entry_outcome(entry, scope) is Emit {
                    lemma_emitted_path_visible(entry, scope);
                }
            },
            WalkEventView::Failed { .. } => {},
        }
    }
}

/// A directory whose name is on the ignore list is never emitted.
pub proof fn lemma_ignored_directory_skipped(entry: WalkEntryView, scope: Scope)
    requires
        entry.is_directory,
        relative_segments(entry.path, scope.browse_root) matches Some(segs) && scope.ignore.contains(
            entry_name(segs),
        ),
    ensures
        entry_outcome(entry, scope) == Outcome::Skip,
{
    reveal(entry_outcome);
}

/// No record of a reconciliation is a directory whose name is on the ignore
/// list.
pub proof fn lemma_ignored_never_listed(events: Seq<WalkEventView>, scope: Scope)
    ensures
        reconciled(events, scope) matches Ok(records) ==> forall|k: Seq<char>| #[trigger]
            records.contains_key(k) && records[k].is_directory ==> !scope.ignore.contains(
                entry_name(split_segments(k)),
            ),
    decreases events.len(),
{
    reveal(entry_outcome);
    if events.len() > 0 {
        lemma_ignored_never_listed(events.drop_last(), scope);
        match events.last() {
            WalkEventView::Found(entry) => {
                if entry_outcome(entry, scope) is Emit {
                    let segs = relative_segments(entry.path, scope.browse_root)->0;
                    lemma_relative_segments_plain(entry.path, scope.browse_root);
                    if segs.len() > 0 {
                        lemma_split_join(segs);
                    } else {
                        assert(split_segments(join_segments(segs)) =~= seq![Seq::<char>::empty()]);
                    }
                }
            },
            WalkEventView::Failed { .. } => {},
        }
    }
}

/// The ignore list speaks of directories only: what becomes of any other
/// entry is the same under every ignore list.
pub proof fn lemma_ignore_list_spares_files(
    entry: WalkEntryView,
    scope: Scope,
    ignore: Seq<Seq<char>>,
)
    requires
        !entry.is_directory,
    ensures
        entry_outcome(entry, Scope { ignore, ..scope }) == entry_outcome(entry, scope),
{
    reveal(entry_outcome);
}

/// Where an emitted entry has a sidecar and the artifact tracker has a status
/// for the entry's own path, that status is the entry's, whatever the ledger
/// says of the sidecar.
pub proof fn lemma_artifact_overrides_ledger(entry: WalkEntryView, scope: Scope)
    requires
        entry_outcome(entry, scope) is Emit,
        entry_outcome(entry, scope)->Emit_0.has_dvc_file,
        normalized(entry.path, scope.ledger_root) matches Some(key) && scope.artifacts.contains_key(
            key,
        ),
    ensures
        entry_outcome(entry, scope)->Emit_0.git_status == scope.artifacts[normalized(
            entry.path,
            scope.ledger_root,
        )->0],
{
    reveal(entry_outcome);
}

/// Step `i` of the walk fails.
pub open spec fn fails_at(events: Seq<WalkEventView>, scope: Scope, i: int) -> bool {
    0 <= i < events.len() && event_outcome(events[i], scope) is Fail
}

/// Step `i` of the walk emits a record for the path `key`.
pub open spec fn emits_at(events: Seq<WalkEventView>, scope: Scope, i: int, key: Seq<char>) -> bool {
    0 <= i < events.len() && event_outcome(events[i], scope) is Emit && event_outcome(
        events[i],
        scope,
    )->Emit_0.path == key
}

/// A reconciliation fails exactly when some step fails, and then with the
/// failure of the first step that does.
pub proof fn lemma_first_failure_ends(events: Seq<WalkEventView>, scope: Scope)
    ensures
        reconciled(events, scope) is Err <==> exists|i: int| fails_at(events, scope, i),
        forall|i: int|
            #![trigger fails_at(events, scope, i)]
            fails_at(events, scope, i) && (forall|j: int|
                0 <= j < i ==> !fails_at(events, scope, j)) ==> reconciled(events, scope) == Err::<
                Map<Seq<char>, FileEntryView>,
                StatusErrorView,
            >(event_outcome(events[i], scope)->Fail_0),
    decreases events.len(),
{
    if events.len() > 0 {
        let init = events.drop_last();
        let n = events.len() - 1;
        lemma_first_failure_ends(init, scope);
        assert forall|i: int| fails_at(init, scope, i) == (i < n && fails_at(events, scope, i)) by {
            if 0 <= i < n {
                assert(init[i] == events[i]);
            }
        }
        if reconciled(init, scope) is Err {
            let i = choose|i: int| fails_at(init, scope, i);
            assert(fails_at(events, scope, i));
        } else {
            assert forall|i: int| 0 <= i < n implies !fails_at(events, scope, i) by {
                assert(fails_at(init, scope, i) == fails_at(events, scope, i));
            }
            if reconciled(events, scope) is Err {
                assert(fails_at(events, scope, n));
            }
        }
        assert forall|i: int|
            #![trigger fails_at(events, scope, i)]
            fails_at(events, scope, i) && (forall|j: int|
                0 <= j < i ==> !fails_at(events, scope, j)) implies reconciled(events, scope)
            == Err::<Map<Seq<char>, FileEntryView>, StatusErrorView>(
            event_outcome(events[i], scope)->Fail_0,
        ) by {
            if i < n {
                assert(fails_at(init, scope, i));
                assert forall|j: int| 0 <= j < i implies !fails_at(init, scope, j) by {
                    assert(fails_at(init, scope, j) == fails_at(events, scope, j));
                }
            } else {
                if reconciled(init, scope) is Err {
                    let j = choose|j: int| fails_at(init, scope, j);
                    assert(fails_at(events, scope, j));
                }
            }
        }
    }
}

/// The records of a reconciliation are those that its steps emit: a path has
/// a record exactly when some step emits one for it, and the record is that
/// of the last step that does.
pub proof fn lemma_last_record_stays(events: Seq<WalkEventView>, scope: Scope, key: Seq<char>)
    requires
        reconciled(events, scope) is Ok,
    ensures
        reconciled(events, scope)->Ok_0.contains_key(key) <==> exists|i: int|
            emits_at(events, scope, i, key),
        forall|i: int|
            #![trigger emits_at(events, scope, i, key)]
            emits_at(events, scope, i, key) && (forall|j: int|
                i < j < events.len() ==> !emits_at(events, scope, j, key)) ==> reconciled(
                events,
                scope,
            )->Ok_0[key] == event_outcome(events[i], scope)->Emit_0,
    decreases events.len(),
{
    if events.len() > 0 {
        let init = events.drop_last();
        let n = events.len() - 1;
        lemma_last_record_stays(init, scope, key);
        let before = reconciled(init, scope)->Ok_0;
        let records = reconciled(events, scope)->Ok_0;
        assert forall|i: int| emits_at(init, scope, i, key) == (i < n && emits_at(
            events,
            scope,
            i,
            key,
        )) by {
            if 0 <= i < n {
                assert(init[i] == events[i]);
            }
        }
        if before.contains_key(key) {
            let i = choose|i: int| emits_at(init, scope, i, key);
            assert(emits_at(events, scope, i, key));
        }
        if records.contains_key(key) && !before.contains_key(key) {
            assert(emits_at(events, scope, n, key));
        }
        if exists|i: int| emits_at(events, scope, i, key) {
            let i = choose|i: int| emits_at(events, scope, i, key);
            if i < n {
                assert(emits_at(init, scope, i, key));
            }
        }
        assert forall|i: int|
            #![trigger emits_at(events, scope, i, key)]
            emits_at(events, scope, i, key) && (forall|j: int|
                i < j < events.len() ==> !emits_at(events, scope, j, key)) implies records[key]
            == event_outcome(events[i], scope)->Emit_0 by {
            if i < n {
                assert(emits_at(init, scope, i, key));
                assert(!emits_at(events, scope, n, key));
                assert forall|j: int| i < j < init.len() implies !emits_at(init, scope, j, key) by {
                    assert(emits_at(init, scope, j, key) == emits_at(events, scope, j, key));
                }
            }
        }
    } else {
        assert(!reconciled(events, scope)->Ok_0.contains_key(key));
    }
}

/// Step `i` of the walk found an entry whose path has the normal form `key`
/// relative to `root`.
pub open spec fn found_at(events: Seq<WalkEventView>, root: Seq<char>, i: int, key: Seq<char>) -> bool {
    0 <= i < events.len() && match events[i] {
        WalkEventView::Found(entry) => normalized(entry.path, root) == Some(key),
        WalkEventView::Failed { .. } => false,
    }
}

/// The known paths are the normal forms of the paths of the entries that the
/// walk found.
pub proof fn lemma_known_paths(events: Seq<WalkEventView>, root: Seq<char>, key: Seq<char>)
    ensures
        known_paths(events, root).contains(key) <==> exists|i: int| found_at(events, root, i, key),
    decreases events.len(),
{
    if events.len() > 0 {
        let init = events.drop_last();
        let n = events.len() - 1;
        lemma_known_paths(init, root, key);
        assert forall|i: int| found_at(init, root, i, key) == (i < n && found_at(
            events,
            root,
            i,
            key,
        )) by {
            if 0 <= i < n {
                assert(init[i] == events[i]);
            }
        }
        if known_paths(init, root).contains(key) {
            let i = choose|i: int| found_at(init, root, i, key);
            assert(found_at(events, root, i, key));
        }
        if known_paths(events, root).contains(key) && !known_paths(init, root).contains(key) {
            assert(found_at(events, root, n, key));
        }
        if exists|i: int| found_at(events, root, i, key) {
            let i = choose|i: int| found_at(events, root, i, key);
            if i < n {
                assert(found_at(init, root, i, key));
            }
        }
    }
}

/// Once a prefix of the walk fails, the whole walk fails in the same way.
pub proof fn lemma_failure_lasts(events: Seq<WalkEventView>, scope: Scope, k: int)
    requires
        0 <= k <= events.len(),
        reconciled(events.take(k), scope) is Err,
    ensures
        reconciled(events, scope) == reconciled(events.take(k), scope),
    decreases events.len() - k,
{
    if k == events.len() {
        assert(events.take(k) =~= events);
    } else {
        assert(events.take(k + 1).drop_last() =~= events.take(k));
        lemma_failure_lasts(events, scope, k + 1);
    }
}

/// The status of one file that was asked about by path.
#[derive(Debug)]
pub struct FileStatus {
    pub path: String,
    pub git_status: StatusCode,
    pub has_dvc_file: bool,
}

/// The mathematical content of a `FileStatus`.
pub struct FileStatusView {
    pub path: Seq<char>,
    pub git_status: StatusCode,
    pub has_dvc_file: bool,
}

impl View for FileStatus {
    type V = FileStatusView;

    open spec fn view(&self) -> FileStatusView {
        FileStatusView {
            path: self.path@,
            git_status: self.git_status,
            has_dvc_file: self.has_dvc_file,
        }
    }
}

/// The views of a vector of statuses.
pub open spec fn status_views(statuses: Seq<FileStatus>) -> Seq<FileStatusView> {
    Seq::new(statuses.len(), |i: int| statuses[i]@)
}

/// The status of the file `file_path`. A sidecar is reported under the path
/// of the file it stands for, with the ledger's status of the sidecar. Any
/// other file is reported with the ledger's status of its sidecar where it
/// has one among `known`, else with its own.
pub open spec fn file_status_of(
    file_path: Seq<char>,
    repo_root: Seq<char>,
    ledger: Map<Seq<char>, StatusCode>,
    known: Set<Seq<char>>,
) -> Result<FileStatusView, StatusErrorView> {
    if is_sidecar_path(file_path) {
        match ledger_status(file_path, false, false, repo_root, ledger) {
            Err(e) => Err(e),
            Ok(status) => Ok(
                FileStatusView {
                    path: file_path.take(file_path.len() - 4),
                    git_status: status,
                    has_dvc_file: true,
                },
            ),
        }
    } else {
        let has = has_sidecar(file_path, false, repo_root, known);
        match ledger_status(file_path, false, has, repo_root, ledger) {
            Err(e) => Err(e),
            Ok(status) => Ok(
                FileStatusView { path: file_path, git_status: status, has_dvc_file: has },
            ),
        }
    }
}

/// The status of the file `file_path`, from the ledger's map and the
/// existing paths `known`, both relative to `repo_root`.
pub fn file_status(file_path: &str, repo_root: &str, git_status_map: &StatusMap, known: &PathSet) -> (r:
    Result<FileStatus, StatusError>)
    ensures
        match r {
            Ok(status) => file_status_of(file_path@, repo_root@, git_status_map@, known@) == Ok::<
                FileStatusView,
                StatusErrorView,
            >(status@),
            Err(e) => file_status_of(file_path@, repo_root@, git_status_map@, known@) == Err::<
                FileStatusView,
                StatusErrorView,
            >(e@),
        },
{
    if is_sidecar(file_path) {
        match get_git_status_for_path(file_path, false, repo_root, git_status_map, false) {
            Err(e) => Err(e),
            Ok(status) => {
                let mut chars = chars_of(file_path);
                let keep = chars.len() - 4;
                chars.truncate(keep);
                assert(chars@ =~= file_path@.take(file_path@.len() - 4));
                Ok(FileStatus { path: string_of(&chars), git_status: status, has_dvc_file: true })
            },
        }
    } else {
        let has = check_dvc_file(file_path, false, repo_root, known);
        match get_git_status_for_path(file_path, false, repo_root, git_status_map, has) {
            Err(e) => Err(e),
            Ok(status) => Ok(
                FileStatus { path: file_path.to_owned(), git_status: status, has_dvc_file: has },
            ),
        }
    }
}

/// The statuses of the files `file_paths`, in their order. The first file
/// whose path does not lie under `repo_root` ends the query with its failure.
pub fn get_files_status(
    file_paths: &Vec<String>,
    repo_root: &str,
    git_status_map: &StatusMap,
    known: &PathSet,
) -> (r: Result<Vec<FileStatus>, StatusError>)
    ensures
        match r {
            Ok(statuses) => statuses@.len() == file_paths@.len() && forall|i: int|
                0 <= i < file_paths@.len() ==> file_status_of(
                    #[trigger] file_paths@[i]@,
                    repo_root@,
                    git_status_map@,
                    known@,
                ) == Ok::<FileStatusView, StatusErrorView>(statuses@[i]@),
            Err(e) => exists|i: int|
                0 <= i < file_paths@.len() && file_status_of(
                    #[trigger] file_paths@[i]@,
                    repo_root@,
                    git_status_map@,
                    known@,
                ) == Err::<FileStatusView, StatusErrorView>(e@) && forall|j: int|
                    0 <= j < i ==> file_status_of(
                        #[trigger] file_paths@[j]@,
                        repo_root@,
                        git_status_map@,
                        known@,
                    ) is Ok,
        },
{
    let mut statuses: Vec<FileStatus> = Vec::new();
    let mut i: usize = 0;
    while i < file_paths.len()
        invariant
            i <= file_paths.len(),
            statuses@.len() == i,
            forall|j: int|
                0 <= j < i ==> file_status_of(
                    #[trigger] file_paths@[j]@,
                    repo_root@,
                    git_status_map@,
                    known@,
                ) == Ok::<FileStatusView, StatusErrorView>(statuses@[j]@),
        decreases file_paths.len() - i,
    {
        match file_status(file_paths[i].as_str(), repo_root, git_status_map, known) {
            Ok(status) => {
                statuses.push(status);
            },
            Err(e) => {
                return Err(e);
            },
        }
        i += 1;
    }
    Ok(statuses)
}

/// The text that `base64`'s standard engine, with padding, encodes bytes to.
pub uninterp spec fn base64_standard(bytes: Seq<u8>) -> Seq<char>;

/// `Engine::encode` of `base64::engine::general_purpose::STANDARD`: the
/// padded base64 text of the bytes, four characters for every three bytes
/// begun. It panics where that length does not fit a `usize`.
#[verifier::external_body]
fn encode_base64(bytes: &Vec<u8>) -> (text: String)
    requires
        4 * ((bytes@.len() + 2) / 3) <= usize::MAX,
    ensures
        text@ == base64_standard(bytes@),
        text@.len() == 4 * ((bytes@.len() + 2) / 3),
{
    base64::Engine::encode(&base64::engine::general_purpose::STANDARD, bytes)
}

/// The length of the base64 text of `n` bytes: four characters for every
/// three bytes begun.
pub open spec fn base64_length(n: nat) -> nat {
    4 * ((n + 2) / 3)
}

/// The content of a file as base64 text, as it is handed to a viewer. `None`
/// exactly where the text would be longer than a `usize` can say.
pub fn get_file_binary(content: &Vec<u8>) -> (r: Option<String>)
    ensures
        match r {
            Some(text) => base64_length(content@.len()) <= usize::MAX && text@ == base64_standard(
                content@,
            ) && text@.len() == base64_length(content@.len()),
            None => base64_length(content@.len()) > usize::MAX,
        },
{
    let n = content.len();
    let begun: usize = if n % 3 > 0 {
        1
    } else {
        0
    };
    let groups = n / 3 + begun;
    assert(groups == (n + 2) / 3);
    if groups <= usize::MAX / 4 {
        Some(encode_base64(content))
    } else {
        None
    }
}

/// The names of the directories that hold build output and dependencies.
pub open spec fn default_ignore() -> Seq<Seq<char>> {
    seq!["target"@, "node_modules"@, ".git"@, "dist"@, "build"@]
}

/// The usual ignore list: the names of the directories that hold build
/// output and dependencies.
pub fn default_ignore_prefixes() -> (names: Vec<String>)
    ensures
        string_views(names@) == default_ignore(),
{
    let mut names: Vec<String> = Vec::new();
    names.push("target".to_owned());
    names.push("node_modules".to_owned());
    names.push(".git".to_owned());
    names.push("dist".to_owned());
    names.push("build".to_owned());
    assert(string_views(names@) =~= default_ignore());
    names
}

/// Whether `r` answers a status query over the walk `events` of `path`,
/// given how the ledger's three commands and the artifact tracker's diff
/// command ended. A failure of the ledger comes before one of the artifact
/// tracker, and that before one of the walk.
pub open spec fn structure_result(
    events: Seq<WalkEventView>,
    path: Seq<char>,
    ignore: Seq<Seq<char>>,
    toplevel: CommandOutcomeView,
    listing: CommandOutcomeView,
    status: CommandOutcomeView,
    diff: CommandOutcomeView,
    r: Result<Seq<FileEntryView>, StatusErrorView>,
) -> bool {
    match repo_git_status(toplevel, listing, status) {
        Err(e) => r == Err::<Seq<FileEntryView>, StatusErrorView>(e),
        Ok((root, ledger)) => exists|artifacts: Result<Map<Seq<char>, StatusCode>, StatusErrorView>|
            #[trigger] diff_result(diff, root, artifacts) && match artifacts {
                Err(e) => r == Err::<Seq<FileEntryView>, StatusErrorView>(e),
                Ok(found) => match reconciled(
                    events,
                    scope_of(events, path, root, ledger, found, ignore),
                ) {
                    Err(e) => r == Err::<Seq<FileEntryView>, StatusErrorView>(e),
                    Ok(records) => r matches Ok(files) && is_listing_of(files, records),
                },
            },
    }
}

/// The status listing of the directory `path`: one record for each visible
/// entry of the walk `events`, in ascending order of path, from how the
/// ledger's commands and the artifact tracker's diff command ended.
/// Directories named in `ignore_prefixes` are left out.
pub fn get_file_tree_structure(
    events: &Vec<WalkEvent>,
    path: &str,
    ignore_prefixes: &Vec<String>,
    toplevel: &CommandOutcome,
    listing: &CommandOutcome,
    status: &CommandOutcome,
    diff: &CommandOutcome,
) -> (r: Result<Vec<FileEntry>, StatusError>)
    ensures
        structure_result(
            event_views(events@),
            path@,
            string_views(ignore_prefixes@),
            toplevel@,
            listing@,
            status@,
            diff@,
            match r {
                Ok(files) => Ok(entry_views(files@)),
                Err(e) => Err(e@),
            },
        ),
{
    let (repo_root, git_status_map) = match get_repo_git_status(toplevel, listing, status) {
        Ok(found) => found,
        Err(e) => {
            return Err(e);
        },
    };
    let dvc_status_map = match dvc_diff(diff, repo_root.as_str()) {
        Ok(map) => {
            assert(diff_result(
                diff@,
                repo_root@,
                Ok::<Map<Seq<char>, StatusCode>, StatusErrorView>(map@),
            ));
            map
        },
        Err(e) => {
            assert(diff_result(
                diff@,
                repo_root@,
                Err::<Map<Seq<char>, StatusCode>, StatusErrorView>(e@),
            ));
            return Err(e);
        },
    };
    list_file_entries(
        events,
        path,
        repo_root.as_str(),
        &git_status_map,
        &dvc_status_map,
        ignore_prefixes,
    )
}

} // verus!
