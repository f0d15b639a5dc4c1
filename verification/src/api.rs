//! Requests and answers of the HTTP API, and the decisions its handlers
//! make before and after touching the index.
use vstd::prelude::*;
use crate::search::SearchQuery;
use crate::text::{
    chars_of, contains, contains_str, decimal, equals_str, is_blank, owned, push_decimal, push_str, trim,
};
use crate::watch::{
    add_watch_dir, clean_watch_path, remove_watch_dir, watched, first_watched, clean_path_text,
};

verus! {

/// Answer of an index or configuration operation.
#[derive(Debug)]
pub struct IndexOpResponse {
    pub success: bool,
    pub message: String,
    pub count: Option<usize>,
    pub errors: Option<usize>,
}

impl IndexOpResponse {
    /// A failed operation with its message.
    pub fn failure(message: String) -> (r: Self)
        ensures
            !r.success,
            r.message == message,
            r.count is None,
            r.errors is None,
    {
        IndexOpResponse { success: false, message, count: None, errors: None }
    }

    /// A successful operation with its message and counts.
    pub fn succeeded(message: String, count: Option<usize>, errors: Option<usize>) -> (r: Self)
        ensures
            r.success,
            r.message == message,
            r.count == count,
            r.errors == errors,
    {
        IndexOpResponse { success: true, message, count, errors }
    }
}

/// The watched directories.
#[derive(Debug)]
pub struct WatchDirsResponse {
    pub watch_dirs: Vec<String>,
}

/// A directory to add to or remove from the watch list.
#[derive(Debug)]
pub struct WatchDirRequest {
    pub path: String,
}

/// A file to index.
#[derive(Debug)]
pub struct AddFileRequest {
    pub file_path: String,
}

/// A file to remove from the index.
#[derive(Debug)]
pub struct RemoveFileRequest {
    pub file_path: String,
}

/// A directory to scan.
#[derive(Debug)]
pub struct ScanDirRequest {
    pub directory: String,
    pub recursive: bool,
}

/// A request for search suggestions.
#[derive(Debug)]
pub struct SuggestQuery {
    pub q: String,
    pub limit: Option<usize>,
}

impl SuggestQuery {
    /// The number of suggestions asked for (10 by default).
    pub fn limit_or_default(&self) -> (n: usize)
        ensures
            n == (match self.limit {
                Some(l) => l,
                None => 10,
            }),
    {
        match self.limit {
            Some(l) => l,
            None => 10,
        }
    }
}

/// A request for a file preview.
#[derive(Debug)]
pub struct PreviewQuery {
    pub path: String,
    pub max_len: Option<usize>,
}

impl PreviewQuery {
    /// The preview length asked for, in characters (5000 by default).
    pub fn max_len_or_default(&self) -> (n: usize)
        ensures
            n == (match self.max_len {
                Some(l) => l,
                None => 5000,
            }),
    {
        match self.max_len {
            Some(l) => l,
            None => 5000,
        }
    }
}

/// `prefix` followed by `detail`, the shape of the handlers' messages.
pub fn message(prefix: &str, detail: &str) -> (m: String)
    ensures
        m@ == prefix@ + detail@,
{
    let mut m = owned(prefix);
    push_str(&mut m, detail);
    m
}

// ───────────────────────── search ─────────────────────────

/// A search needs a query text that is not blank; this is the message
/// otherwise.
pub fn check_search_text(q: &str) -> (r: Result<(), String>)
    ensures
        r is Ok <==> trim(q@).len() != 0,
        r matches Err(m) ==> m@ == "Query string 'q' is required"@,
{
    if is_blank(q) {
        Err(owned("Query string 'q' is required"))
    } else {
        Ok(())
    }
}

/// The message reported for a failed search, given the error's text.
pub fn search_error_message(err: &str) -> (m: String)
    ensures
        contains(err@, "regex"@) ==> m@ == "Invalid regex pattern: "@ + err@,
        !contains(err@, "regex"@) ==> m@ == "Search failed: "@ + err@,
{
    if contains_str(err, "regex") {
        message("Invalid regex pattern: ", err)
    } else {
        message("Search failed: ", err)
    }
}

/// The form of an export.
#[derive(Debug, Clone, Copy, PartialEq, Eq, Structural)]
pub enum ExportFormat {
    Csv,
    Json,
}

/// The export form a `format` parameter asks for: JSON for `json`, CSV
/// otherwise (the default).
pub fn export_format(format: Option<&str>) -> (r: ExportFormat)
    ensures
        r == (if format matches Some(f) && f@ == "json"@ {
            ExportFormat::Json
        } else {
            ExportFormat::Csv
        }),
{
    match format {
        Some(f) => if equals_str(&chars_of(f), "json") {
            ExportFormat::Json
        } else {
            ExportFormat::Csv
        },
        None => ExportFormat::Csv,
    }
}

/// The search an export runs: the same request from the first result,
/// with at most 10000 results.
pub fn export_query(q: SearchQuery) -> (r: SearchQuery)
    ensures
        r.limit == (if q.limit < 10000 {
            q.limit
        } else {
            10000
        }),
        r.offset == 0,
        r.q == q.q,
        r.file_type == q.file_type,
        r.path_filter == q.path_filter,
        r.mode == q.mode,
        r.sort == q.sort,
        r.date_from == q.date_from,
        r.date_to == q.date_to,
        r.size_min == q.size_min,
        r.size_max == q.size_max,
        r.highlight == q.highlight,
        r.snippet_window == q.snippet_window,
{
    let limit = if q.limit < 10000 {
        q.limit
    } else {
        10000
    };
    SearchQuery { limit, offset: 0, ..q }
}

// ───────────────────────── index operations ─────────────────────────

pub open spec fn scan_message_text(count: usize, errors: usize, dir: Seq<char>) -> Seq<char> {
    "Indexed "@ + decimal(count as nat) + " files from '"@ + dir + "'"@ + if errors > 0 {
        " ("@ + decimal(errors as nat) + " failed)"@
    } else {
        ""@
    }
}

/// The answer to a finished directory scan.
pub fn scan_response(count: usize, errors: usize, dir: &str) -> (r: IndexOpResponse)
    ensures
        r.success,
        r.message@ == scan_message_text(count, errors, dir@),
        r.count == Some(count),
        r.errors == Some(errors),
{
    let mut m = owned("Indexed ");
    push_decimal(&mut m, count as u64);
    push_str(&mut m, " files from '");
    push_str(&mut m, dir);
    push_str(&mut m, "'");
    if errors > 0 {
        push_str(&mut m, " (");
        push_decimal(&mut m, errors as u64);
        push_str(&mut m, " failed)");
    } else {
        proof {
            reveal_strlit("");
        }
        assert(m@ + ""@ == m@);
    }
    IndexOpResponse::succeeded(m, Some(count), Some(errors))
}

// ───────────────────────── watched directories ─────────────────────────

/// First step of adding a watched directory: the path as typed, cleaned;
/// an empty path is refused with `Path is empty`.
pub fn watch_request_path(raw: &str) -> (r: Result<String, IndexOpResponse>)
    ensures
        match r {
            Ok(p) => p@ == clean_path_text(raw@) && p@.len() > 0,
            Err(resp) => clean_path_text(raw@).len() == 0 && !resp.success && resp.message@
                == "Path is empty"@,
        },
{
    let p = clean_watch_path(raw);
    if p.as_str().is_empty() {
        Err(IndexOpResponse::failure(owned("Path is empty")))
    } else {
        Ok(p)
    }
}

/// Second step of adding a watched directory `dir` (already made absolute
/// and known to exist): it joins the list unless it is already watched
/// (compared ignoring ASCII case). On `Ok` the caller persists the list
/// (and pops the entry if that fails), then answers with
/// `added_response`.
pub fn add_watched(dirs: &mut Vec<String>, dir: String) -> (r: Result<(), IndexOpResponse>)
    ensures
        r is Ok <==> !watched(old(dirs).deep_view(), dir@),
        r is Ok ==> final(dirs).deep_view() == old(dirs).deep_view().push(dir@),
        match r {
            Err(resp) => final(dirs).deep_view() == old(dirs).deep_view() && !resp.success
                && resp.message@ == "Already watching: "@ + dir@,
            Ok(_) => true,
        },
{
    let ghost d = dir@;
    let shown = owned(dir.as_str());
    match add_watch_dir(dirs, dir) {
        Ok(()) => Ok(()),
        Err(_) => Err(IndexOpResponse::failure(message("Already watching: ", shown.as_str()))),
    }
}

/// The answer once a directory was added and its scan started.
pub fn added_response(dir: &str) -> (r: IndexOpResponse)
    ensures
        r.success,
        r.message@ == "Added and indexing in background: "@ + dir@,
        r.count is None && r.errors is None,
{
    IndexOpResponse::succeeded(message("Added and indexing in background: ", dir), None, None)
}

/// Removes a watched directory named by a request (`raw` is trimmed and
/// unquoted first). On `Some` the caller persists the list (and puts the
/// entry back if that fails) and answers with `removed_response`; on
/// `None` it answers `Not in watch list: <path>`.
pub fn remove_watched(dirs: &mut Vec<String>, raw: &str) -> (r: Option<String>)
    ensures
        match r {
            Some(removed) => exists|i: int|
                first_watched(old(dirs).deep_view(), clean_path_text(raw@), i) && removed@ == old(
                    dirs,
                ).deep_view()[i] && final(dirs).deep_view() == old(dirs).deep_view().remove(i),
            None => !watched(old(dirs).deep_view(), clean_path_text(raw@)) && final(dirs).deep_view()
                == old(dirs).deep_view(),
        },
{
    let p = clean_watch_path(raw);
    remove_watch_dir(dirs, p.as_str())
}

/// The answer once a watched directory was removed.
pub fn removed_response(dir: &str) -> (r: IndexOpResponse)
    ensures
        r.success,
        r.message@ == "Removed: "@ + dir@
            + " (indexed files are kept; live monitoring for it stops after restart)"@,
{
    let mut m = message("Removed: ", dir);
    push_str(&mut m, " (indexed files are kept; live monitoring for it stops after restart)");
    IndexOpResponse::succeeded(m, None, None)
}

}
