//! The artifact status aggregator: from the artifact tracker's diff report,
//! a JSON document, to a status map.

use crate::error::{StatusError, StatusErrorView};
use crate::ledger::{CommandOutcome, CommandOutcomeView};
use crate::path::{normalize, normalized};
use crate::status::{StatusCode, StatusMap};
use crate::text::{chars_of, ends_with, has_suffix, push_chars, replace_all, replace_chars, string_of};
use vstd::prelude::*;
use vstd::string::StringExecFns;

verus! {

/// `serde_json::Value`, a parsed JSON document. Verus sees nothing inside it.
#[verifier::external_type_specification]
#[verifier::external_body]
pub struct ExJsonValue(serde_json::Value);

/// `serde_json::Error`, the reason a text is no JSON document.
#[verifier::external_type_specification]
#[verifier::external_body]
pub struct ExJsonError(serde_json::Error);

/// A JSON document as a mathematical tree. Numbers carry no value: nothing
/// here reads one.
pub enum JsonTree {
    Null,
    Bool(bool),
    Number,
    Text(Seq<char>),
    List(Seq<JsonTree>),
    Object(Map<Seq<char>, JsonTree>),
}

/// The tree that a `serde_json::Value` holds.
pub uninterp spec fn json_tree(value: serde_json::Value) -> JsonTree;

/// The document that `serde_json::from_str` reads from a text, or `None`
/// where it reports an error.
pub uninterp spec fn json_document(text: Seq<char>) -> Option<JsonTree>;

/// `serde_json::from_str` at type `Value`: the value holds the document that
/// the text spells, and an error means that the text spells none.
#[verifier::external_body]
fn parse_json(text: &str) -> (r: Result<serde_json::Value, serde_json::Error>)
    ensures
        match r {
            Ok(value) => json_document(text@) == Some(json_tree(value)),
            Err(_) => json_document(text@) is None,
        },
{
    serde_json::from_str(text)
}

/// `serde_json::Error`'s `to_string`: the error as text. Nothing is claimed
/// of the text.
#[verifier::external_body]
fn json_error_text(error: &serde_json::Error) -> String {
    error.to_string()
}

/// `serde_json::Value::is_object`: whether the value is an object.
#[verifier::external_body]
fn json_is_object(value: &serde_json::Value) -> (r: bool)
    ensures
        r == (json_tree(*value) is Object),
{
    value.is_object()
}

/// `serde_json::Value::get` with a string index: the member of that name
/// where the value is an object that has one, else `None`.
#[verifier::external_body]
fn json_get<'a>(value: &'a serde_json::Value, key: &str) -> (r: Option<&'a serde_json::Value>)
    ensures
        match r {
            Some(member) => json_tree(*value) matches JsonTree::Object(members)
                && members.contains_key(key@) && json_tree(*member) == members[key@],
            None => !(json_tree(*value) matches JsonTree::Object(members) && members.contains_key(
                key@,
            )),
        },
{
    value.get(key)
}

/// `serde_json::Value::as_array`: the elements where the value is an array,
/// else `None`.
#[verifier::external_body]
fn json_as_array(value: &serde_json::Value) -> (r: Option<&Vec<serde_json::Value>>)
    ensures
        match r {
            Some(items) => json_tree(*value) matches JsonTree::List(elements) && items@.len()
                == elements.len() && forall|i: int|
                0 <= i < items@.len() ==> json_tree(#[trigger] items@[i]) == elements[i],
            None => !(json_tree(*value) is List),
        },
{
    value.as_array()
}

/// `serde_json::Value::as_str`: the text where the value is a string, else
/// `None`.
#[verifier::external_body]
fn json_as_str(value: &serde_json::Value) -> (r: Option<&str>)
    ensures
        match r {
            Some(text) => json_tree(*value) == JsonTree::Text(text@),
            None => !(json_tree(*value) is Text),
        },
{
    value.as_str()
}

/// The file name of the bundled program `exe_name` on a platform: the name
/// with `.exe` on Windows and `.bin` elsewhere, put in place of either ending
/// wherever the name ends in one, and appended to any other name.
pub open spec fn script_file_name(exe_name: Seq<char>, windows: bool) -> Seq<char> {
    let ending = if windows {
        ".exe"@
    } else {
        ".bin"@
    };
    if ends_with(exe_name, ".exe"@) {
        replace_all(exe_name, ".exe"@, ending)
    } else if ends_with(exe_name, ".bin"@) {
        replace_all(exe_name, ".bin"@, ending)
    } else {
        exe_name + ending
    }
}

/// The file name under which the bundled program `exe_name` is looked for.
pub fn script_name(exe_name: &str, windows: bool) -> (name: String)
    ensures
        name@ == script_file_name(exe_name@, windows),
{
    proof {
        reveal_strlit(".exe");
        reveal_strlit(".bin");
    }
    let given = chars_of(exe_name);
    let exe = chars_of(".exe");
    let bin = chars_of(".bin");
    let ending = if windows {
        chars_of(".exe")
    } else {
        chars_of(".bin")
    };
    if has_suffix(&given, &exe) {
        string_of(&replace_chars(&given, &exe, &ending))
    } else if has_suffix(&given, &bin) {
        string_of(&replace_chars(&given, &bin, &ending))
    } else {
        let mut name = exe_name.to_owned();
        push_chars(&mut name, &ending);
        name
    }
}

/// The number of categories in a diff report.
pub open spec fn category_count() -> nat {
    5
}

/// The name of the report's member that lists category `i`.
pub open spec fn category_name(i: int) -> Seq<char> {
    if i == 0 {
        "added"@
    } else if i == 1 {
        "deleted"@
    } else if i == 2 {
        "modified"@
    } else if i == 3 {
        "renamed"@
    } else {
        "not in cache"@
    }
}

/// The status that category `i` gives its paths: the one of the same name.
pub open spec fn category_status(i: int) -> StatusCode {
    if i == 0 {
        StatusCode::Added
    } else if i == 1 {
        StatusCode::Deleted
    } else if i == 2 {
        StatusCode::Modified
    } else if i == 3 {
        StatusCode::Renamed
    } else {
        StatusCode::NotInCache
    }
}

/// The failure that a report of the wrong shape ends in.
pub open spec fn malformed(detail: Seq<char>) -> StatusErrorView {
    StatusErrorView::ArtifactToolUnavailable { detail }
}

/// The map after one entry of a category. An entry is an object with a
/// string member `path`, the path it reports; of a renamed artifact that is
/// the new path. Any other member is passed over.
pub open spec fn apply_item(
    map: Map<Seq<char>, StatusCode>,
    item: JsonTree,
    status: StatusCode,
    root: Seq<char>,
) -> Result<Map<Seq<char>, StatusCode>, StatusErrorView> {
    match item {
        JsonTree::Object(fields) => if fields.contains_key("path"@) {
            match fields["path"@] {
                JsonTree::Text(path) => match normalized(path, root) {
                    Some(key) => Ok(map.insert(key, status)),
                    None => Err(StatusErrorView::PathOutsideRoot { path, root }),
                },
                _ => Err(malformed("dvc diff entry has no path"@)),
            }
        } else {
            Err(malformed("dvc diff entry has no path"@))
        },
        _ => Err(malformed("dvc diff entry has no path"@)),
    }
}

/// The map after the entries of a category, in order.
pub open spec fn apply_items(
    map: Map<Seq<char>, StatusCode>,
    items: Seq<JsonTree>,
    status: StatusCode,
    root: Seq<char>,
) -> Result<Map<Seq<char>, StatusCode>, StatusErrorView>
    decreases items.len(),
{
    if items.len() == 0 {
        Ok(map)
    } else {
        match apply_items(map, items.drop_last(), status, root) {
            Err(e) => Err(e),
            Ok(before) => apply_item(before, items.last(), status, root),
        }
    }
}

/// The map after category `i` of a report with the members `members`. A
/// category that the report does not list has no entries; one that is listed
/// must be an array.
pub open spec fn apply_category(
    map: Map<Seq<char>, StatusCode>,
    members: Map<Seq<char>, JsonTree>,
    i: int,
    root: Seq<char>,
) -> Result<Map<Seq<char>, StatusCode>, StatusErrorView> {
    if !members.contains_key(category_name(i)) {
        Ok(map)
    } else {
        match members[category_name(i)] {
            JsonTree::List(items) => apply_items(map, items, category_status(i), root),
            _ => Err(malformed("dvc diff category is not an array"@)),
        }
    }
}

/// The map after the first `n` categories.
pub open spec fn apply_categories(
    members: Map<Seq<char>, JsonTree>,
    n: nat,
    root: Seq<char>,
) -> Result<Map<Seq<char>, StatusCode>, StatusErrorView>
    decreases n,
{
    if n == 0 {
        Ok(Map::empty())
    } else {
        match apply_categories(members, (n - 1) as nat, root) {
            Err(e) => Err(e),
            Ok(before) => apply_category(before, members, n - 1, root),
        }
    }
}

/// The status map of a diff report: each path of each category under the
/// category's status, keyed by its normal form relative to `root`. Where a
/// path stands in several places the last one stays. A report that is no
/// object, a category that is no array and an entry without a path are
/// failures, and so is a path outside `root`; the first failure in the order
/// of the categories and their entries is the report's.
pub open spec fn artifact_map(report: JsonTree, root: Seq<char>) -> Result<
    Map<Seq<char>, StatusCode>,
    StatusErrorView,
> {
    match report {
        JsonTree::Object(members) => apply_categories(members, category_count(), root),
        _ => Err(malformed("dvc diff report is not an object"@)),
    }
}

/// A report without changes, an object without members, gives the empty map.
pub proof fn lemma_empty_report(root: Seq<char>)
    ensures
        artifact_map(JsonTree::Object(Map::empty()), root) == Ok::<
            Map<Seq<char>, StatusCode>,
            StatusErrorView,
        >(Map::empty()),
{
    let members = Map::<Seq<char>, JsonTree>::empty();
    assert(apply_categories(members, 0, root) is Ok);
    assert(apply_categories(members, 1, root) is Ok);
    assert(apply_categories(members, 2, root) is Ok);
    assert(apply_categories(members, 3, root) is Ok);
    assert(apply_categories(members, 4, root) is Ok);
    assert(apply_categories(members, 5, root) is Ok);
}

fn category(i: usize) -> (r: (&'static str, StatusCode))
    requires
        i < 5,
    ensures
        r.0@ == category_name(i as int),
        r.1 == category_status(i as int),
{
    if i == 0 {
        ("added", StatusCode::Added)
    } else if i == 1 {
        ("deleted", StatusCode::Deleted)
    } else if i == 2 {
        ("modified", StatusCode::Modified)
    } else if i == 3 {
        ("renamed", StatusCode::Renamed)
    } else {
        ("not in cache", StatusCode::NotInCache)
    }
}

fn shape_error(detail: &str) -> (e: StatusError)
    ensures
        e@ == malformed(detail@),
{
    StatusError::ArtifactToolUnavailable { detail: detail.to_owned() }
}

/// Once a prefix of the entries fails, the whole category fails in the same
/// way.
pub proof fn lemma_item_failure_lasts(
    map: Map<Seq<char>, StatusCode>,
    items: Seq<JsonTree>,
    status: StatusCode,
    root: Seq<char>,
    k: int,
)
    requires
        0 <= k <= items.len(),
        apply_items(map, items.take(k), status, root) is Err,
    ensures
        apply_items(map, items, status, root) == apply_items(map, items.take(k), status, root),
    decreases items.len() - k,
{
    if k == items.len() {
        assert(items.take(k) =~= items);
    } else {
        assert(items.take(k + 1).drop_last() =~= items.take(k));
        lemma_item_failure_lasts(map, items, status, root, k + 1);
    }
}

/// Once a category fails, the report fails in the same way.
pub proof fn lemma_category_failure_lasts(
    members: Map<Seq<char>, JsonTree>,
    k: nat,
    n: nat,
    root: Seq<char>,
)
    requires
        k <= n,
        apply_categories(members, k, root) is Err,
    ensures
        apply_categories(members, n, root) == apply_categories(members, k, root),
    decreases n - k,
{
    if k < n {
        lemma_category_failure_lasts(members, k, (n - 1) as nat, root);
    }
}

fn add_category(seed: StatusMap, report: &serde_json::Value, i: usize, root: &str) -> (r: Result<
    StatusMap,
    StatusError,
>)
    requires
        i < 5,
        json_tree(*report) is Object,
    ensures
        match r {
            Ok(out) => apply_category(seed@, json_tree(*report)->Object_0, i as int, root@) == Ok::<
                Map<Seq<char>, StatusCode>,
                StatusErrorView,
            >(out@),
            Err(e) => apply_category(seed@, json_tree(*report)->Object_0, i as int, root@) == Err::<
                Map<Seq<char>, StatusCode>,
                StatusErrorView,
            >(e@),
        },
{
    let (name, status) = category(i);
    let listed = match json_get(report, name) {
        None => {
            return Ok(seed);
        },
        Some(listed) => listed,
    };
    let items = match json_as_array(listed) {
        None => {
            return Err(shape_error("dvc diff category is not an array"));
        },
        Some(items) => items,
    };
    let ghost start = seed@;
    let ghost elements = json_tree(*listed)->List_0;
    let mut map = seed;
    let mut k: usize = 0;
    assert(elements.take(0) =~= Seq::<JsonTree>::empty());
    while k < items.len()
        invariant
            k <= items.len(),
            start == seed@,
            json_tree(*report) is Object,
            (json_tree(*report)->Object_0).contains_key(category_name(i as int)),
            (json_tree(*report)->Object_0)[category_name(i as int)] == JsonTree::List(elements),
            status == category_status(i as int),
            items@.len() == elements.len(),
            forall|j: int| 0 <= j < items@.len() ==> json_tree(#[trigger] items@[j]) == elements[j],
            apply_items(start, elements.take(k as int), status, root@) == Ok::<
                Map<Seq<char>, StatusCode>,
                StatusErrorView,
            >(map@),
        decreases items.len() - k,
    {
        proof {
            assert(elements.take(k + 1).drop_last() =~= elements.take(k as int));
            assert(elements.take(k + 1).last() == json_tree(items@[k as int]));
        }
        let found = match json_get(&items[k], "path") {
            None => None,
            Some(field) => json_as_str(field),
        };
        match found {
            None => {
                proof {
                    lemma_item_failure_lasts(start, elements, status, root@, k + 1);
                }
                return Err(shape_error("dvc diff entry has no path"));
            },
            Some(path) => match normalize(path, root) {
                Ok(key) => {
                    map.insert(key, status);
                },
                Err(e) => {
                    proof {
                        lemma_item_failure_lasts(start, elements, status, root@, k + 1);
                    }
                    return Err(e);
                },
            },
        }
        k += 1;
    }
    proof {
        assert(elements.take(k as int) =~= elements);
    }
    Ok(map)
}

/// The status map of the diff report `report`, keyed by path relative to
/// `root`. Fails with `ArtifactToolUnavailable` where the report has not the
/// shape of a diff report, and with `PathOutsideRoot` where it names a path
/// outside `root`.
pub fn artifact_status_map(report: &serde_json::Value, root: &str) -> (r: Result<
    StatusMap,
    StatusError,
>)
    ensures
        match r {
            Ok(map) => artifact_map(json_tree(*report), root@) == Ok::<
                Map<Seq<char>, StatusCode>,
                StatusErrorView,
            >(map@),
            Err(e) => artifact_map(json_tree(*report), root@) == Err::<
                Map<Seq<char>, StatusCode>,
                StatusErrorView,
            >(e@),
        },
{
    if !json_is_object(report) {
        return Err(shape_error("dvc diff report is not an object"));
    }
    let ghost members = json_tree(*report)->Object_0;
    let mut map = StatusMap::new();
    let mut i: usize = 0;
    while i < 5
        invariant
            i <= 5,
            json_tree(*report) == JsonTree::Object(members),
            apply_categories(members, i as nat, root@) == Ok::<
                Map<Seq<char>, StatusCode>,
                StatusErrorView,
            >(map@),
        decreases 5 - i,
    {
        match add_category(map, report, i, root) {
            Ok(next) => {
                map = next;
            },
            Err(e) => {
                proof {
                    assert(apply_categories(members, (i + 1) as nat, root@) is Err);
                    lemma_category_failure_lasts(members, (i + 1) as nat, 5, root@);
                }
                return Err(e);
            },
        }
        i += 1;
    }
    Ok(map)
}

/// What a diff report gives, from how the artifact tracker's diff command
/// ended. A command that did not start, one that ran without success and an
/// output that is no JSON document are `ArtifactToolUnavailable`.
pub open spec fn diff_result(
    outcome: CommandOutcomeView,
    root: Seq<char>,
    r: Result<Map<Seq<char>, StatusCode>, StatusErrorView>,
) -> bool {
    match outcome {
        CommandOutcomeView::NotRun { detail } => r == Err::<
            Map<Seq<char>, StatusCode>,
            StatusErrorView,
        >(malformed("Failed to run dvc_diff_script.exe: "@ + detail)),
        CommandOutcomeView::Ran { success, stdout, stderr } => if !success {
            r == Err::<Map<Seq<char>, StatusCode>, StatusErrorView>(malformed(stderr))
        } else {
            match json_document(stdout) {
                Some(report) => r == artifact_map(report, root),
                None => r matches Err(StatusErrorView::ArtifactToolUnavailable { .. }),
            }
        },
    }
}

/// The artifact tracker's status map, keyed by path relative to `root`, from
/// how its diff command ended.
pub fn dvc_diff(outcome: &CommandOutcome, root: &str) -> (r: Result<StatusMap, StatusError>)
    ensures
        diff_result(
            outcome@,
            root@,
            match r {
                Ok(map) => Ok(map@),
                Err(e) => Err(e@),
            },
        ),
{
    match outcome {
        CommandOutcome::NotRun { detail } => {
            let mut message = "Failed to run dvc_diff_script.exe: ".to_owned();
            message.append(detail.as_str());
            Err(StatusError::ArtifactToolUnavailable { detail: message })
        },
        CommandOutcome::Ran { success, stdout, stderr } => {
            if !*success {
                Err(StatusError::ArtifactToolUnavailable { detail: stderr.clone() })
            } else {
                match parse_json(stdout.as_str()) {
                    Ok(report) => artifact_status_map(&report, root),
                    Err(error) => {
                        let mut message = "Failed to parse dvc diff JSON: ".to_owned();
                        let reason = json_error_text(&error);
                        message.append(reason.as_str());
                        Err(StatusError::ArtifactToolUnavailable { detail: message })
                    },
                }
            }
        },
    }
}

} // verus!
