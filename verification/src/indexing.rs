//! Which files get indexed, and the record stored for each.
use vstd::prelude::*;
use crate::config::{
    Config, WatcherConfig,
};
use crate::text::{
    chars_of, contains, contains_str, lowercase, owned, push_decimal, push_str, to_lowercase,
};
use crate::watch::ChangeKind;

verus! {

/// A document as stored in the index.
#[derive(Debug)]
pub struct IndexedDoc {
    pub file_path: String,
    pub file_name: String,
    pub file_ext: String,
    pub content: String,
    /// Modification time in unix seconds (0 when unknown).
    pub modified: i64,
    pub size_bytes: u64,
}

/// Hidden and temporary files: names starting with `.` or `~`.
pub open spec fn hidden_name(name: Seq<char>) -> bool {
    name.len() > 0 && (name[0] == '.' || name[0] == '~')
}

/// Some exclusion pattern occurs in the path, ignoring case.
pub open spec fn pattern_excluded(patterns: Seq<Seq<char>>, path: Seq<char>) -> bool {
    exists|i: int| 0 <= i < patterns.len() && contains(lowercase(path), lowercase(#[trigger] patterns[i]))
}

fn is_hidden(name: &str) -> (b: bool)
    ensures
        b == hidden_name(name@),
{
    let v = chars_of(name);
    v.len() > 0 && (v[0] == '.' || v[0] == '~')
}

fn listed(list: &Vec<String>, x: &str) -> (b: bool)
    ensures
        b == list.deep_view().contains(x@),
{
    let mut i: usize = 0;
    let xs = owned(x);
    while i < list.len()
        invariant
            i <= list@.len(),
            xs@ == x@,
            forall|k: int| 0 <= k < i ==> list@[k]@ != x@,
        decreases list@.len() - i,
    {
        if list[i].eq(&xs) {
            assert(list.deep_view()[i as int] == x@);
            return true;
        }
        i += 1;
    }
    assert(!list.deep_view().contains(x@)) by {
        if list.deep_view().contains(x@) {
            let k = choose|k: int| 0 <= k < list.deep_view().len() && #[trigger] list.deep_view()[k] == x@;
            assert(list.deep_view()[k] == list@[k]@);
        }
    }
    false
}

fn matches_pattern(patterns: &Vec<String>, path: &str) -> (b: bool)
    ensures
        b == pattern_excluded(patterns.deep_view(), path@),
{
    let lower = to_lowercase(path);
    let mut i: usize = 0;
    while i < patterns.len()
        invariant
            i <= patterns@.len(),
            lower@ == lowercase(path@),
            forall|k: int|
                0 <= k < i ==> !contains(lowercase(path@), lowercase(#[trigger] patterns.deep_view()[k])),
        decreases patterns@.len() - i,
    {
        let p = to_lowercase(patterns[i].as_str());
        assert(patterns.deep_view()[i as int] == patterns@[i as int]@);
        if contains_str(lower.as_str(), p.as_str()) {
            return true;
        }
        i += 1;
    }
    false
}

/// Whether a file is left out of a directory scan: hidden names, excluded
/// extensions (compared lowercased), paths matching an exclusion pattern,
/// and files larger than the size limit. `name` and `extension` are absent
/// when the path has none that is valid Unicode; `size` when the file's
/// metadata cannot be read.
pub open spec fn skipped(
    name: Option<Seq<char>>,
    extension: Option<Seq<char>>,
    path: Seq<char>,
    size: Option<u64>,
    config: Config,
) -> bool {
    ||| (name matches Some(n) && hidden_name(n))
    ||| (extension matches Some(e) && config.watcher.exclude_extensions.deep_view().contains(lowercase(e)))
    ||| pattern_excluded(config.watcher.exclude_patterns.deep_view(), path)
    ||| (size matches Some(s) && s > config.index.max_file_size_bytes)
}

/// Whether a file is left out of a directory scan.
pub fn should_skip_file(
    name: Option<&str>,
    extension: Option<&str>,
    path: &str,
    size: Option<u64>,
    config: &Config,
) -> (b: bool)
    ensures
        b == skipped(
            match name {
                Some(n) => Some(n@),
                None => None,
            },
            match extension {
                Some(e) => Some(e@),
                None => None,
            },
            path@,
            size,
            *config,
        ),
{
    match name {
        Some(n) => {
            if is_hidden(n) {
                return true;
            }
        },
        None => {},
    }
    match extension {
        Some(e) => {
            let lower = to_lowercase(e);
            if listed(&config.watcher.exclude_extensions, lower.as_str()) {
                return true;
            }
        },
        None => {},
    }
    if matches_pattern(&config.watcher.exclude_patterns, path) {
        return true;
    }
    match size {
        Some(s) => s > config.index.max_file_size_bytes,
        None => false,
    }
}

/// Whether a change reported by the watcher is ignored: hidden names,
/// excluded extensions, extensions outside a non-empty include list, and
/// paths matching an exclusion pattern.
pub open spec fn change_ignored(
    name: Option<Seq<char>>,
    extension: Option<Seq<char>>,
    path: Seq<char>,
    w: WatcherConfig,
) -> bool {
    ||| (name matches Some(n) && hidden_name(n))
    ||| (extension matches Some(e) && w.exclude_extensions.deep_view().contains(lowercase(e)))
    ||| (extension matches Some(e) && w.include_extensions@.len() > 0
        && !w.include_extensions.deep_view().contains(lowercase(e)))
    ||| pattern_excluded(w.exclude_patterns.deep_view(), path)
}

/// A scan leaves a file out when its name starts with `.` or `~`, when its
/// lowercased extension is excluded, when an exclusion pattern occurs in its
/// path (both lowercased), or when it is larger than the size limit; any
/// other file is scanned.
pub proof fn law_scan_skips(
    name: Option<Seq<char>>,
    extension: Option<Seq<char>>,
    path: Seq<char>,
    size: Option<u64>,
    config: Config,
)
    ensures
        skipped(name, extension, path, size, config) <==> {
            ||| (name matches Some(n) && n.len() > 0 && (n[0] == '.' || n[0] == '~'))
            ||| (extension matches Some(e)
                && config.watcher.exclude_extensions.deep_view().contains(lowercase(e)))
            ||| (exists|i: int|
                0 <= i < config.watcher.exclude_patterns@.len() && contains(
                    lowercase(path),
                    lowercase(#[trigger] config.watcher.exclude_patterns.deep_view()[i]),
                ))
            ||| (size matches Some(z) && z > config.index.max_file_size_bytes)
        },
{
    let ps = config.watcher.exclude_patterns.deep_view();
    assert(ps.len() == config.watcher.exclude_patterns@.len());
}

/// The watcher ignores a change of a file whose name starts with `.` or `~`,
/// whose lowercased extension is excluded or, when an include list is set,
/// not included, or whose path holds an exclusion pattern (both
/// lowercased).
pub proof fn law_watch_ignores(
    name: Option<Seq<char>>,
    extension: Option<Seq<char>>,
    path: Seq<char>,
    w: WatcherConfig,
)
    ensures
        change_ignored(name, extension, path, w) <==> {
            ||| (name matches Some(n) && n.len() > 0 && (n[0] == '.' || n[0] == '~'))
            ||| (extension matches Some(e) && w.exclude_extensions.deep_view().contains(lowercase(e)))
            ||| (extension matches Some(e) && w.include_extensions@.len() > 0
                && !w.include_extensions.deep_view().contains(lowercase(e)))
            ||| (exists|i: int|
                0 <= i < w.exclude_patterns@.len() && contains(
                    lowercase(path),
                    lowercase(#[trigger] w.exclude_patterns.deep_view()[i]),
                ))
        },
{
    let ps = w.exclude_patterns.deep_view();
    assert(ps.len() == w.exclude_patterns@.len());
}

/// What the watcher does about a change.
#[derive(Debug, Clone, Copy, PartialEq, Eq, Structural)]
pub enum ChangeAction {
    /// Nothing.
    Ignore,
    /// Index the file again, if it is still a file.
    Reindex,
    /// Remove the file from the index.
    Remove,
}

/// Decides what the watcher does about a debounced change.
pub fn change_action(
    kind: ChangeKind,
    name: Option<&str>,
    extension: Option<&str>,
    path: &str,
    w: &WatcherConfig,
) -> (a: ChangeAction)
    ensures
        a == (if change_ignored(
            match name {
                Some(n) => Some(n@),
                None => None,
            },
            match extension {
                Some(e) => Some(e@),
                None => None,
            },
            path@,
            *w,
        ) {
            ChangeAction::Ignore
        } else {
            match kind {
                ChangeKind::Create | ChangeKind::Modify => ChangeAction::Reindex,
                ChangeKind::Remove => ChangeAction::Remove,
                ChangeKind::Other => ChangeAction::Ignore,
            }
        }),
{
    match name {
        Some(n) => {
            if is_hidden(n) {
                return ChangeAction::Ignore;
            }
        },
        None => {},
    }
    match extension {
        Some(e) => {
            let lower = to_lowercase(e);
            if listed(&w.exclude_extensions, lower.as_str()) {
                return ChangeAction::Ignore;
            }
            if w.include_extensions.len() > 0 && !listed(&w.include_extensions, lower.as_str()) {
                return ChangeAction::Ignore;
            }
        },
        None => {},
    }
    if matches_pattern(&w.exclude_patterns, path) {
        return ChangeAction::Ignore;
    }
    match kind {
        ChangeKind::Create | ChangeKind::Modify => ChangeAction::Reindex,
        ChangeKind::Remove => ChangeAction::Remove,
        ChangeKind::Other => ChangeAction::Ignore,
    }
}

/// Why a single file is not indexed.
#[derive(Debug)]
pub enum IndexError {
    /// Its extension is excluded; carries the lowercased extension.
    ExcludedExtension(String),
    /// It is larger than the limit; carries its size and the limit.
    FileTooLarge(u64, u64),
}

impl IndexError {
    /// The message reported when a file is refused for this reason.
    pub fn message(&self) -> (m: String)
        ensures
            match self {
                IndexError::ExcludedExtension(e) => m@ == "Excluded extension: "@ + e@,
                IndexError::FileTooLarge(size, max) => m@ == "File too large: "@ + crate::text::decimal(
                    *size as nat,
                ) + " bytes (max: "@ + crate::text::decimal(*max as nat) + ")"@,
            },
    {
        match self {
            IndexError::ExcludedExtension(e) => {
                let mut m = owned("Excluded extension: ");
                push_str(&mut m, e.as_str());
                m
            },
            IndexError::FileTooLarge(size, max) => {
                let mut m = owned("File too large: ");
                push_decimal(&mut m, *size);
                push_str(&mut m, " bytes (max: ");
                push_decimal(&mut m, *max);
                push_str(&mut m, ")");
                m
            },
        }
    }
}

/// Checks a file before indexing it:
/// its lowercased extension must not be excluded and its size must be within
/// the limit. Returns the lowercased extension.
pub fn admit_file(extension: &str, size: u64, config: &Config) -> (r: Result<String, IndexError>)
    ensures
        match r {
            Ok(e) => e@ == lowercase(extension@) && !config.watcher.exclude_extensions.deep_view().contains(
                lowercase(extension@),
            ) && size <= config.index.max_file_size_bytes,
            Err(IndexError::ExcludedExtension(e)) => e@ == lowercase(extension@)
                && config.watcher.exclude_extensions.deep_view().contains(lowercase(extension@)),
            Err(IndexError::FileTooLarge(s, m)) => !config.watcher.exclude_extensions.deep_view().contains(
                lowercase(extension@),
            ) && s == size && m == config.index.max_file_size_bytes && size > m,
        },
{
    let ext = to_lowercase(extension);
    if listed(&config.watcher.exclude_extensions, ext.as_str()) {
        return Err(IndexError::ExcludedExtension(ext));
    }
    if size > config.index.max_file_size_bytes {
        return Err(IndexError::FileTooLarge(size, config.index.max_file_size_bytes));
    }
    Ok(ext)
}

/// The progress note shown with index statistics while a scan runs:
/// `(current/total) message`, or nothing when there is no message.
pub fn progress_label(current: usize, total: usize, message: &str) -> (r: Option<String>)
    ensures
        message@.len() == 0 ==> r is None,
        message@.len() > 0 ==> (r matches Some(t) && t@ == "("@ + crate::text::decimal(
            current as nat,
        ) + "/"@ + crate::text::decimal(total as nat) + ") "@ + message@),
{
    if message.is_empty() {
        return None;
    }
    let mut t = owned("(");
    push_decimal(&mut t, current as u64);
    push_str(&mut t, "/");
    push_decimal(&mut t, total as u64);
    push_str(&mut t, ") ");
    push_str(&mut t, message);
    Some(t)
}

}
