//! Application configuration: the settings, their defaults, the rules a
//! configuration update must satisfy, and the normal form it is stored in.
use vstd::prelude::*;
use crate::text::{
    chars_of, is_blank, lex_lt, lowercase, owned, push_str, skip_start, str_less, strip_start,
    to_lowercase, trim, trim_str, Strip, lemma_lex_total, lemma_lex_transitive, string_from_range,
};

verus! {

/// Main application configuration.
#[derive(Debug)]
pub struct Config {
    pub server: ServerConfig,
    pub index: IndexConfig,
    pub parser: ParserConfig,
    pub watcher: WatcherConfig,
    pub logging: LogConfig,
}

/// HTTP server settings.
#[derive(Debug)]
pub struct ServerConfig {
    pub port: u16,
    pub host: String,
}

/// Search index settings.
#[derive(Debug)]
pub struct IndexConfig {
    /// Directory that holds the index files.
    pub dir: String,
    /// Writer buffer size in bytes.
    pub writer_buffer_bytes: usize,
    /// Largest file that gets indexed, in bytes.
    pub max_file_size_bytes: u64,
}

/// Document parsing settings.
#[derive(Debug)]
pub struct ParserConfig {
    /// URL of a running Tika server.
    pub tika_server_url: Option<String>,
    /// Path of a Tika application JAR.
    pub tika_jar_path: Option<String>,
    /// Fall back to the built-in parsers when Tika is unavailable.
    pub fallback_basic: bool,
}

/// File watching settings.
#[derive(Debug)]
pub struct WatcherConfig {
    /// Directories watched for changes.
    pub watch_dirs: Vec<String>,
    /// Whether live monitoring is on.
    pub enabled: bool,
    /// Debounce delay in milliseconds.
    pub debounce_ms: u64,
    /// Period of a full rescan in seconds (0 = never).
    pub full_scan_interval_secs: u64,
    /// Extensions never indexed.
    pub exclude_extensions: Vec<String>,
    /// When not empty, the only extensions indexed by the watcher.
    pub include_extensions: Vec<String>,
    /// Path substrings that exclude a file.
    pub exclude_patterns: Vec<String>,
}

/// Logging settings.
#[derive(Debug)]
pub struct LogConfig {
    /// One of trace, debug, info, warn, error.
    pub level: String,
}

// ───────────────────────── defaults ─────────────────────────

pub open spec fn default_exclude_extensions_spec() -> Seq<Seq<char>> {
    seq![
        "tmp"@, "temp"@, "lock"@, "sys"@, "dll"@, "exe"@, "so"@, "dylib"@, "class"@, "o"@,
        "obj"@, "a"@,
    ]
}

pub open spec fn default_exclude_patterns_spec() -> Seq<Seq<char>> {
    seq![
        "node_modules"@, ".git"@, "__pycache__"@, ".idea"@, ".vscode"@, "target"@, ".cargo"@,
        ".rustup"@, "vendor"@,
    ]
}

/// By default temporary and lock files, system files, executables, shared
/// libraries and object files are not indexed, nor anything under
/// dependency, version-control, editor or build directories.
pub proof fn law_default_exclusions()
    ensures
        default_exclude_extensions_spec().contains("tmp"@),
        default_exclude_extensions_spec().contains("temp"@),
        default_exclude_extensions_spec().contains("lock"@),
        default_exclude_extensions_spec().contains("sys"@),
        default_exclude_extensions_spec().contains("dll"@),
        default_exclude_extensions_spec().contains("exe"@),
        default_exclude_extensions_spec().contains("so"@),
        default_exclude_extensions_spec().contains("dylib"@),
        default_exclude_extensions_spec().contains("class"@),
        default_exclude_extensions_spec().contains("o"@),
        default_exclude_extensions_spec().contains("obj"@),
        default_exclude_extensions_spec().contains("a"@),
        default_exclude_patterns_spec().contains("node_modules"@),
        default_exclude_patterns_spec().contains(".git"@),
        default_exclude_patterns_spec().contains("__pycache__"@),
        default_exclude_patterns_spec().contains(".idea"@),
        default_exclude_patterns_spec().contains(".vscode"@),
        default_exclude_patterns_spec().contains("target"@),
        default_exclude_patterns_spec().contains(".cargo"@),
        default_exclude_patterns_spec().contains(".rustup"@),
        default_exclude_patterns_spec().contains("vendor"@),
{
    let e = default_exclude_extensions_spec();
    let p = default_exclude_patterns_spec();
    assert(e[0] == "tmp"@);
    assert(e[1] == "temp"@);
    assert(e[2] == "lock"@);
    assert(e[3] == "sys"@);
    assert(e[4] == "dll"@);
    assert(e[5] == "exe"@);
    assert(e[6] == "so"@);
    assert(e[7] == "dylib"@);
    assert(e[8] == "class"@);
    assert(e[9] == "o"@);
    assert(e[10] == "obj"@);
    assert(e[11] == "a"@);
    assert(p[0] == "node_modules"@);
    assert(p[1] == ".git"@);
    assert(p[2] == "__pycache__"@);
    assert(p[3] == ".idea"@);
    assert(p[4] == ".vscode"@);
    assert(p[5] == "target"@);
    assert(p[6] == ".cargo"@);
    assert(p[7] == ".rustup"@);
    assert(p[8] == "vendor"@);
}

/// Builds a list of strings from literals.
fn strings_of(items: &[&str]) -> (v: Vec<String>)
    ensures
        v.deep_view() == items@.map_values(|s: &str| s@),
{
    let mut v: Vec<String> = Vec::new();
    let mut i: usize = 0;
    while i < items.len()
        invariant
            i <= items@.len(),
            v.deep_view() == items@.take(i as int).map_values(|s: &str| s@),
        decreases items@.len() - i,
    {
        let ghost before = v.deep_view();
        v.push(owned(items[i]));
        assert(items@.take(i + 1) == items@.take(i as int).push(items@[i as int]));
        assert(v.deep_view() =~= before.push(items@[i as int]@));
        i += 1;
    }
    assert(items@.take(items@.len() as int) == items@);
    v
}

/// Extensions excluded by default.
pub fn default_exclude_extensions() -> (v: Vec<String>)
    ensures
        v.deep_view() == default_exclude_extensions_spec(),
{
    let items = [
        "tmp", "temp", "lock", "sys", "dll", "exe", "so", "dylib", "class", "o", "obj", "a",
    ];
    let v = strings_of(&items);
    assert(v.deep_view() =~= default_exclude_extensions_spec());
    v
}

/// Path substrings excluded by default.
pub fn default_exclude_patterns() -> (v: Vec<String>)
    ensures
        v.deep_view() == default_exclude_patterns_spec(),
{
    let items = [
        "node_modules", ".git", "__pycache__", ".idea", ".vscode", "target", ".cargo", ".rustup",
        "vendor",
    ];
    let v = strings_of(&items);
    assert(v.deep_view() =~= default_exclude_patterns_spec());
    v
}

/// The platform's local data directory (`dirs::data_local_dir`), as text.
/// It depends on the environment and the platform, so nothing is stated of it.
#[verifier::external_body]
fn data_local_dir() -> Option<String> {
    dirs::data_local_dir().map(|p| p.to_string_lossy().to_string())
}

/// A path separator of some platform: `/`, or `\\` on Windows.
pub open spec fn path_separator(c: char) -> bool {
    c == '/' || c == '\\'
}

/// A path component of lowercase ASCII letters: relative, without root,
/// prefix or separator.
pub open spec fn plain_component(part: Seq<char>) -> bool {
    part.len() > 0 && forall|i: int| 0 <= i < part.len() ==> 'a' <= #[trigger] part[i] <= 'z'
}

/// A relative path on every platform: not empty, not starting with a
/// separator (no root), and without `:` (no Windows drive prefix).
pub open spec fn relative_text(part: Seq<char>) -> bool {
    &&& part.len() > 0
    &&& !path_separator(part[0])
    &&& forall|i: int| 0 <= i < part.len() ==> #[trigger] part[i] != ':'
}

/// `base` extended by the relative component `part`: with no separator
/// between them, or with one.
pub open spec fn joined(base: Seq<char>, part: Seq<char>, r: Seq<char>) -> bool {
    ||| r == base + part
    ||| exists|c: char| path_separator(c) && r == base + seq![c] + part
}

/// `r` ends with `part` after a separator, or is `base` followed by `part`.
pub open spec fn ends_joined(base: Seq<char>, part: Seq<char>, r: Seq<char>) -> bool {
    ||| r == base + part
    ||| exists|c: char|
        path_separator(c) && r.len() >= part.len() + 1 && r.subrange(
            r.len() - part.len() - 1,
            r.len() as int,
        ) == seq![c] + part
}

/// No `?` occurs in the text: it cannot start with a Windows verbatim prefix
/// (`\\?\`).
pub open spec fn no_verbatim(base: Seq<char>) -> bool {
    forall|i: int| 0 <= i < base.len() ==> #[trigger] base[i] != '?'
}

/// `Path::join`, as text. Joining a relative path extends the base (the
/// documentation of `PathBuf::push`): for a relative `part` and a base
/// without a Windows verbatim prefix, the result is `base` followed by
/// `part`, with a separator between them where the platform adds one. A
/// verbatim base is normalized first, so of such a base only that the result
/// ends with a separator and `part` is stated (or is `base` and `part`), and
/// only for a plain component. A `part` with a root or a prefix replaces
/// part of the base in a way that depends on the platform: nothing is stated
/// of it. Which separator is added also depends on the platform.
#[verifier::external_body]
fn join_path(base: &str, part: &str) -> (r: String)
    ensures
        plain_component(part@) ==> ends_joined(base@, part@, r@),
        relative_text(part@) && no_verbatim(base@) ==> joined(base@, part@, r@),
{
    std::path::Path::new(base).join(part).to_string_lossy().to_string()
}

/// `Path::is_absolute`, on text. An absolute path starts with a root (Unix)
/// or with a prefix and a root (Windows), so it is not empty and not relative
/// on every platform. Which rooted paths count as absolute depends on the
/// platform and is not stated.
#[verifier::external_body]
fn is_absolute_path(path: &str) -> (b: bool)
    ensures
        b ==> !relative_text(path@),
{
    std::path::Path::new(path).is_absolute()
}

/// A configured path as used: an absolute path as it is, a relative one
/// joined to the current directory `cwd`, or kept as it is where the current
/// directory is not known.
pub fn resolve_path(path: &str, cwd: Option<String>) -> (r: String)
    ensures
        cwd is None ==> r@ == path@,
        relative_text(path@) ==> match cwd {
            Some(c) => no_verbatim(c@) ==> joined(c@, path@, r@),
            None => true,
        },
{
    if is_absolute_path(path) {
        return path.to_string();
    }
    match cwd {
        Some(c) => join_path(&c, path),
        None => path.to_string(),
    }
}

/// The base of the index directory: the local data directory, or `.`.
pub open spec fn index_base(base: Option<Seq<char>>) -> Seq<char> {
    match base {
        Some(d) => d,
        None => "."@,
    }
}

/// `<base>/anywords/index`, with `.` for a missing base.
pub fn index_dir_under(base: Option<String>) -> (r: String)
    ensures
        exists|app: Seq<char>|
            ends_joined(index_base(opt_text(base)), "anywords"@, app) && ends_joined(
                app,
                "index"@,
                r@,
            ),
        no_verbatim(index_base(opt_text(base))) ==> exists|app: Seq<char>|
            joined(index_base(opt_text(base)), "anywords"@, app) && joined(app, "index"@, r@),
{
    let b = match base {
        Some(d) => d,
        None => owned("."),
    };
    proof {
        reveal_strlit("anywords");
        reveal_strlit("index");
    }
    let app = join_path(&b, "anywords");
    proof {
        if no_verbatim(b@) {
            assert(no_verbatim(app@)) by {
                assert forall|i: int| 0 <= i < app@.len() implies #[trigger] app@[i] != '?' by {
                    if app@ == b@ + "anywords"@ {
                        if i >= b@.len() {
                            assert(app@[i] == "anywords"@[i - b@.len()]);
                        }
                    } else {
                        let c = choose|c: char| path_separator(c) && app@ == b@ + seq![c] + "anywords"@;
                        if i > b@.len() {
                            assert(app@[i] == "anywords"@[i - b@.len() - 1]);
                        }
                    }
                }
            }
        }
    }
    join_path(&app, "index")
}

/// `<local data dir>/anywords/index`, or `./anywords/index` where the
/// platform has no local data directory. Which directory that is depends on
/// the environment, so only the shape of the result is stated.
pub fn default_index_dir() -> (r: String)
    ensures
        exists|base: Seq<char>, app: Seq<char>|
            ends_joined(base, "anywords"@, app) && ends_joined(app, "index"@, r@),
{
    index_dir_under(data_local_dir())
}

/// Default HTTP port.
pub fn default_port() -> (p: u16)
    ensures
        p == 9921,
{
    9921
}

/// Default address the server binds to.
pub fn default_host() -> (h: String)
    ensures
        h@ == "127.0.0.1"@,
{
    owned("127.0.0.1")
}

/// Default index writer buffer, in bytes.
pub fn default_writer_buffer() -> (n: usize)
    ensures
        n == 50_000_000,
{
    50_000_000
}

/// Default largest indexed file: 50 MiB.
pub fn default_max_file_size() -> (n: u64)
    ensures
        n == 50 * 1024 * 1024,
{
    50 * 1024 * 1024
}

/// Default debounce delay, in milliseconds.
pub fn default_debounce_ms() -> (n: u64)
    ensures
        n == 2000,
{
    2000
}

/// Default log level.
pub fn default_log_level() -> (l: String)
    ensures
        l@ == "info"@,
{
    owned("info")
}

/// Default of the switches that are on unless set.
pub fn default_true() -> (b: bool)
    ensures
        b,
{
    true
}

pub open spec fn is_default_server(s: ServerConfig) -> bool {
    s.port == 9921 && s.host@ == "127.0.0.1"@
}

pub open spec fn is_default_index(c: IndexConfig) -> bool {
    c.writer_buffer_bytes == 50_000_000 && c.max_file_size_bytes == 52_428_800
}

pub open spec fn is_default_parser(p: ParserConfig) -> bool {
    p.tika_server_url is None && p.tika_jar_path is None && p.fallback_basic
}

pub open spec fn is_default_watcher(w: WatcherConfig) -> bool {
    &&& w.watch_dirs@.len() == 0
    &&& w.enabled
    &&& w.debounce_ms == 2000
    &&& w.full_scan_interval_secs == 0
    &&& w.exclude_extensions.deep_view() == default_exclude_extensions_spec()
    &&& w.include_extensions@.len() == 0
    &&& w.exclude_patterns.deep_view() == default_exclude_patterns_spec()
}

pub open spec fn is_default_log(l: LogConfig) -> bool {
    l.level@ == "info"@
}

impl Default for ServerConfig {
    fn default() -> (s: Self)
        ensures
            is_default_server(s),
    {
        ServerConfig { port: default_port(), host: default_host() }
    }
}

impl Default for IndexConfig {
    fn default() -> (c: Self)
        ensures
            is_default_index(c),
    {
        IndexConfig {
            dir: default_index_dir(),
            writer_buffer_bytes: default_writer_buffer(),
            max_file_size_bytes: default_max_file_size(),
        }
    }
}

impl Default for ParserConfig {
    fn default() -> (p: Self)
        ensures
            is_default_parser(p),
    {
        ParserConfig { tika_server_url: None, tika_jar_path: None, fallback_basic: default_true() }
    }
}

impl Default for WatcherConfig {
    fn default() -> (w: Self)
        ensures
            is_default_watcher(w),
    {
        WatcherConfig {
            watch_dirs: Vec::new(),
            enabled: default_true(),
            debounce_ms: default_debounce_ms(),
            full_scan_interval_secs: 0,
            exclude_extensions: default_exclude_extensions(),
            include_extensions: Vec::new(),
            exclude_patterns: default_exclude_patterns(),
        }
    }
}

impl Default for LogConfig {
    fn default() -> (l: Self)
        ensures
            is_default_log(l),
    {
        LogConfig { level: default_log_level() }
    }
}

impl Default for Config {
    fn default() -> (c: Self)
        ensures
            is_default_server(c.server),
            is_default_index(c.index),
            is_default_parser(c.parser),
            is_default_watcher(c.watcher),
            is_default_log(c.logging),
    {
        Config {
            server: ServerConfig::default(),
            index: IndexConfig::default(),
            parser: ParserConfig::default(),
            watcher: WatcherConfig::default(),
            logging: LogConfig::default(),
        }
    }
}


// ───────────────────────── normal forms ─────────────────────────

/// The text of an optional string.
pub open spec fn opt_text(o: Option<String>) -> Option<Seq<char>> {
    match o {
        Some(s) => Some(s@),
        None => None,
    }
}

/// An empty Tika setting means "not configured".
pub open spec fn tika_setting(o: Option<Seq<char>>) -> Option<Seq<char>> {
    match o {
        Some(s) => if s.len() == 0 {
            None
        } else {
            Some(s)
        },
        None => None,
    }
}

/// Maps an empty Tika setting to `None`.
pub fn normalize_tika_setting(o: Option<String>) -> (r: Option<String>)
    ensures
        opt_text(r) == tika_setting(opt_text(o)),
{
    match o {
        Some(s) => if s.as_str().is_empty() {
            None
        } else {
            Some(s)
        },
        None => None,
    }
}

/// Applies the "empty means unset" rule to both Tika settings.
pub fn normalize_parser(p: ParserConfig) -> (r: ParserConfig)
    ensures
        opt_text(r.tika_server_url) == tika_setting(opt_text(p.tika_server_url)),
        opt_text(r.tika_jar_path) == tika_setting(opt_text(p.tika_jar_path)),
        r.fallback_basic == p.fallback_basic,
{
    ParserConfig {
        tika_server_url: normalize_tika_setting(p.tika_server_url),
        tika_jar_path: normalize_tika_setting(p.tika_jar_path),
        fallback_basic: p.fallback_basic,
    }
}

/// An entry that is kept: not blank after trimming.
pub open spec fn not_blank(s: Seq<char>) -> bool {
    trim(s).len() != 0
}

/// The stored form of an extension: trimmed, without leading dots, lowercase.
pub open spec fn normalized_extension(s: Seq<char>) -> Seq<char> {
    lowercase(strip_start(trim(s), Strip::Exactly('.')))
}

/// The normalized forms of the non-blank entries of `v`.
pub open spec fn extension_set(v: Seq<Seq<char>>) -> Set<Seq<char>> {
    Set::new(
        |x: Seq<char>|
            exists|i: int|
                #![trigger v[i]]
                0 <= i < v.len() && not_blank(v[i]) && x == normalized_extension(v[i]),
    )
}

pub open spec fn strictly_sorted(s: Seq<Seq<char>>) -> bool {
    forall|i: int, j: int| 0 <= i < j < s.len() ==> lex_lt(s[i], s[j])
}

/// `s.trim().trim_start_matches('.').to_lowercase()`.
pub fn normalize_extension(s: &str) -> (r: String)
    ensures
        r@ == normalized_extension(s@),
{
    let t = trim_str(s);
    let tv = chars_of(&t);
    assert(tv@.subrange(0, tv@.len() as int) == tv@);
    let i = skip_start(&tv, 0, Strip::Exactly('.'));
    let stripped = string_from_range(&tv, i, tv.len());
    to_lowercase(&stripped)
}

/// Inserts `x` into a strictly sorted list unless it is already there.
pub fn insert_sorted(v: &mut Vec<String>, x: String)
    requires
        strictly_sorted(old(v).deep_view()),
    ensures
        strictly_sorted(final(v).deep_view()),
        final(v).deep_view().to_set() == old(v).deep_view().to_set().insert(x@),
{
    let ghost s = v.deep_view();
    let mut p: usize = 0;
    while p < v.len() && str_less(&v[p], &x)
        invariant
            p <= v@.len(),
            s == v.deep_view(),
            forall|k: int| 0 <= k < p ==> lex_lt(s[k], x@),
        decreases v@.len() - p,
    {
        p += 1;
    }
    if p < v.len() && v[p] == x {
        assert(s.to_set().insert(x@) =~= s.to_set()) by {
            assert(s[p as int] == x@);
        }
        return;
    }
    proof {
        if p < s.len() {
            lemma_lex_total(s[p as int], x@);
        }
    }
    v.insert(p, x);
    let ghost t = v.deep_view();
    assert(t =~= s.subrange(0, p as int).push(x@) + s.subrange(p as int, s.len() as int));
    assert forall|i: int, j: int| 0 <= i < j < t.len() implies lex_lt(t[i], t[j]) by {
        if j < p {
        } else if j == p {
        } else if i < p {
            assert(t[j] == s[j - 1]);
            if p < j - 1 {
                lemma_lex_transitive(x@, s[p as int], s[j - 1]);
            }
            lemma_lex_transitive(s[i], x@, s[j - 1]);
        } else if i == p {
            assert(t[j] == s[j - 1]);
            if p < j - 1 {
                lemma_lex_transitive(x@, s[p as int], s[j - 1]);
            }
        } else {
            assert(t[i] == s[i - 1] && t[j] == s[j - 1]);
        }
    }
    assert(t.to_set() =~= s.to_set().insert(x@)) by {
        assert forall|y: Seq<char>| t.to_set().contains(y) implies s.to_set().insert(x@).contains(y) by {
            let k = choose|k: int| 0 <= k < t.len() && t[k] == y;
            if k < p {
                assert(s[k] == y);
            } else if k > p {
                assert(s[k - 1] == y);
            }
        }
        assert forall|y: Seq<char>| s.to_set().insert(x@).contains(y) implies t.to_set().contains(y) by {
            if y == x@ {
                assert(t[p as int] == y);
            } else {
                let k = choose|k: int| 0 <= k < s.len() && s[k] == y;
                if k < p {
                    assert(t[k] == y);
                } else {
                    assert(t[k + 1] == y);
                }
            }
        }
    }
}

/// Normalizes an extension list: blank entries dropped, each entry trimmed,
/// stripped of leading dots and lowercased, then sorted and deduplicated.
pub fn normalize_extensions(v: &Vec<String>) -> (r: Vec<String>)
    ensures
        strictly_sorted(r.deep_view()),
        r.deep_view().to_set() == extension_set(v.deep_view()),
{
    let mut r: Vec<String> = Vec::new();
    let mut i: usize = 0;
    let ghost vs = v.deep_view();
    assert(r.deep_view().to_set() =~= Set::empty());
    while i < v.len()
        invariant
            i <= v@.len(),
            vs == v.deep_view(),
            strictly_sorted(r.deep_view()),
            r.deep_view().to_set() == extension_set(vs.take(i as int)),
        decreases v@.len() - i,
    {
        let ghost before = extension_set(vs.take(i as int));
        let ghost a = vs.take(i as int);
        let ghost b = vs.take(i + 1);
        assert forall|k: int| 0 <= k < i implies #[trigger] b[k] == a[k] by {}
        assert(b[i as int] == vs[i as int]);
        if !is_blank(&v[i]) {
            let e = normalize_extension(&v[i]);
            insert_sorted(&mut r, e);
            assert(extension_set(b) =~= before.insert(normalized_extension(vs[i as int]))) by {
                assert forall|x: Seq<char>| extension_set(b).contains(x) implies before.insert(
                    normalized_extension(vs[i as int]),
                ).contains(x) by {
                    let k = choose|k: int|
                        #![trigger b[k]]
                        0 <= k < b.len() && not_blank(b[k]) && x == normalized_extension(b[k]);
                    if k < i {
                        assert(a[k] == b[k]);
                    }
                }
                assert forall|x: Seq<char>| before.insert(normalized_extension(vs[i as int])).contains(
                    x,
                ) implies extension_set(b).contains(x) by {
                    if x != normalized_extension(vs[i as int]) {
                        let k = choose|k: int|
                            #![trigger a[k]]
                            0 <= k < a.len() && not_blank(a[k]) && x == normalized_extension(a[k]);
                        assert(a[k] == b[k]);
                    }
                }
            }
        } else {
            assert(extension_set(b) =~= before) by {
                assert forall|x: Seq<char>| extension_set(b).contains(x) implies before.contains(x) by {
                    let k = choose|k: int|
                        #![trigger b[k]]
                        0 <= k < b.len() && not_blank(b[k]) && x == normalized_extension(b[k]);
                    if k < i {
                        assert(a[k] == b[k]);
                    }
                }
                assert forall|x: Seq<char>| before.contains(x) implies extension_set(b).contains(x) by {
                    let k = choose|k: int|
                        #![trigger a[k]]
                        0 <= k < a.len() && not_blank(a[k]) && x == normalized_extension(a[k]);
                    assert(a[k] == b[k]);
                }
            }
        }
        i += 1;
    }
    assert(vs.take(i as int) == vs);
    r
}

/// The non-blank entries of `v`, in order.
pub open spec fn non_blank_entries(v: Seq<Seq<char>>) -> Seq<Seq<char>> {
    v.filter(|s: Seq<char>| not_blank(s))
}

/// Drops blank entries, keeping the order of the others.
pub fn drop_blank(v: &Vec<String>) -> (r: Vec<String>)
    ensures
        r.deep_view() == non_blank_entries(v.deep_view()),
{
    let mut r: Vec<String> = Vec::new();
    let mut i: usize = 0;
    let ghost vs = v.deep_view();
    proof {
        reveal(Seq::filter);
        assert(vs.take(0).filter(|s: Seq<char>| not_blank(s)) =~= Seq::empty());
    }
    while i < v.len()
        invariant
            i <= v@.len(),
            vs == v.deep_view(),
            r.deep_view() == vs.take(i as int).filter(|s: Seq<char>| not_blank(s)),
        decreases v@.len() - i,
    {
        let ghost before = r.deep_view();
        proof {
            reveal(Seq::filter);
            assert(vs.take(i + 1).drop_last() == vs.take(i as int));
        }
        if !is_blank(&v[i]) {
            r.push(owned(v[i].as_str()));
            assert(r.deep_view() =~= before.push(vs[i as int]));
        }
        i += 1;
    }
    assert(vs.take(i as int) == vs);
    r
}


// ───────────────────────── configuration updates ─────────────────────────

/// Why a configuration update is refused.
#[derive(Debug)]
pub enum ConfigError {
    /// The port is 0.
    InvalidPort,
    /// The host is blank.
    EmptyHost,
    /// The largest indexed file size is 0.
    ZeroMaxFileSize,
    /// The log level is not one of trace, debug, info, warn, error.
    InvalidLogLevel(String),
}

/// A setting whose change only takes effect after a restart.
#[derive(Debug, PartialEq, Eq, Structural, Clone, Copy)]
pub enum RestartField {
    ServerAddress,
    IndexDir,
    WriterBuffer,
    Tika,
    Watcher,
    LogLevel,
}

pub open spec fn valid_log_level(l: Seq<char>) -> bool {
    l == "trace"@ || l == "debug"@ || l == "info"@ || l == "warn"@ || l == "error"@
}

/// The pieces of `p` between `/` separators, empty ones included.
pub open spec fn slash_pieces(p: Seq<char>) -> Seq<Seq<char>>
    decreases p.len(),
{
    if p.len() == 0 {
        seq![seq![]]
    } else {
        let r = slash_pieces(p.drop_last());
        if p.last() == '/' {
            r.push(seq![])
        } else {
            r.update(r.len() - 1, r.last().push(p.last()))
        }
    }
}

/// A piece that names a component: not empty and not `.`.
pub open spec fn is_named(c: Seq<char>) -> bool {
    c.len() > 0 && !(c.len() == 1 && c[0] == '.')
}

/// The named components of `p`: its pieces, without empty ones (repeated,
/// leading or trailing separators) and without `.`.
pub open spec fn named_components(p: Seq<char>) -> Seq<Seq<char>> {
    slash_pieces(p).filter(|c: Seq<char>| is_named(c))
}

/// `p` starts at the root.
pub open spec fn rooted(p: Seq<char>) -> bool {
    p.len() > 0 && p[0] == '/'
}

/// `p` is relative and starts with a `.` component, which `Path` keeps.
pub open spec fn leading_cur_dir(p: Seq<char>) -> bool {
    &&& p.len() > 0
    &&& p[0] == '.'
    &&& (p.len() == 1 || p[1] == '/')
}

/// A path read the same way on every platform: `/` is its only separator
/// (no `\`), it has no Windows prefix (no `:`, and it does not start with
/// two separators).
pub open spec fn portable_path(p: Seq<char>) -> bool {
    &&& forall|i: int| 0 <= i < p.len() ==> #[trigger] p[i] != '\\' && p[i] != ':'
    &&& !(p.len() >= 2 && p[0] == '/' && p[1] == '/')
}

/// `a` and `b` have the same components: both start at the root or neither
/// does, both start with a `.` component or neither does, and their named
/// components are the same.
pub open spec fn same_components(a: Seq<char>, b: Seq<char>) -> bool {
    &&& rooted(a) == rooted(b)
    &&& leading_cur_dir(a) == leading_cur_dir(b)
    &&& named_components(a) == named_components(b)
}

/// Equality of two paths (`Path::eq`), which compares their components. As
/// the documentation of `Path::components` says, repeated separators are
/// ignored, `.` is dropped except at the start of a relative path, and a
/// trailing separator is ignored; so two portable paths (`portable_path`) are
/// equal exactly when they have the same components. Textually equal paths
/// are equal. For paths with `\`, a drive or another prefix, the outcome
/// depends on the platform and is not stated.
#[verifier::external_body]
fn same_path(a: &str, b: &str) -> (r: bool)
    ensures
        a@ == b@ ==> r,
        portable_path(a@) && portable_path(b@) ==> (r <==> same_components(a@, b@)),
{
    std::path::Path::new(a) == std::path::Path::new(b)
}

fn same_opt_text(a: &Option<String>, b: &Option<String>) -> (r: bool)
    ensures
        r == (opt_text(*a) == opt_text(*b)),
{
    match (a, b) {
        (Some(x), Some(y)) => x.eq(y),
        (None, None) => true,
        _ => false,
    }
}

pub open spec fn when(b: bool, f: RestartField) -> Seq<RestartField> {
    if b {
        seq![f]
    } else {
        seq![]
    }
}

/// The settings changed from `old` to `new` that need a restart, in a
/// fixed order; `dir_changed` tells whether the index directory changed.
pub open spec fn restart_fields(old: Config, new: Config, dir_changed: bool) -> Seq<
    RestartField,
> {
    when(
        old.server.port != new.server.port || old.server.host@ != new.server.host@,
        RestartField::ServerAddress,
    ) + when(dir_changed, RestartField::IndexDir) + when(
        old.index.writer_buffer_bytes != new.index.writer_buffer_bytes,
        RestartField::WriterBuffer,
    ) + when(
        opt_text(old.parser.tika_server_url) != opt_text(new.parser.tika_server_url) || opt_text(
            old.parser.tika_jar_path,
        ) != opt_text(new.parser.tika_jar_path) || old.parser.fallback_basic
            != new.parser.fallback_basic,
        RestartField::Tika,
    ) + when(
        old.watcher.enabled != new.watcher.enabled || old.watcher.debounce_ms
            != new.watcher.debounce_ms || old.watcher.full_scan_interval_secs
            != new.watcher.full_scan_interval_secs,
        RestartField::Watcher,
    ) + when(old.logging.level@ != new.logging.level@, RestartField::LogLevel)
}

/// A setting group is reported as needing a restart exactly when one of its
/// settings changed: the server address (port or host), the index
/// directory, the writer buffer, Tika (server URL, JAR path or fallback), the
/// watcher (on or off, debounce or full-scan interval) and the log level.
pub proof fn law_restart_fields_name_changes(old: Config, new: Config, dir_changed: bool)
    ensures
        restart_fields(old, new, dir_changed).contains(RestartField::ServerAddress) <==> (
        old.server.port != new.server.port || old.server.host@ != new.server.host@),
        restart_fields(old, new, dir_changed).contains(RestartField::IndexDir) <==> dir_changed,
        restart_fields(old, new, dir_changed).contains(RestartField::WriterBuffer) <==> (
        old.index.writer_buffer_bytes != new.index.writer_buffer_bytes),
        restart_fields(old, new, dir_changed).contains(RestartField::Tika) <==> (opt_text(
            old.parser.tika_server_url,
        ) != opt_text(new.parser.tika_server_url) || opt_text(old.parser.tika_jar_path) != opt_text(
            new.parser.tika_jar_path,
        ) || old.parser.fallback_basic != new.parser.fallback_basic),
        restart_fields(old, new, dir_changed).contains(RestartField::Watcher) <==> (
        old.watcher.enabled != new.watcher.enabled || old.watcher.debounce_ms
            != new.watcher.debounce_ms || old.watcher.full_scan_interval_secs
            != new.watcher.full_scan_interval_secs),
        restart_fields(old, new, dir_changed).contains(RestartField::LogLevel) <==> (
        old.logging.level@ != new.logging.level@),
{
    let b1 = old.server.port != new.server.port || old.server.host@ != new.server.host@;
    let b3 = old.index.writer_buffer_bytes != new.index.writer_buffer_bytes;
    let b4 = opt_text(old.parser.tika_server_url) != opt_text(new.parser.tika_server_url)
        || opt_text(old.parser.tika_jar_path) != opt_text(new.parser.tika_jar_path)
        || old.parser.fallback_basic != new.parser.fallback_basic;
    let b5 = old.watcher.enabled != new.watcher.enabled || old.watcher.debounce_ms
        != new.watcher.debounce_ms || old.watcher.full_scan_interval_secs
        != new.watcher.full_scan_interval_secs;
    let b6 = old.logging.level@ != new.logging.level@;
    let w1 = when(b1, RestartField::ServerAddress);
    let w2 = when(dir_changed, RestartField::IndexDir);
    let w3 = when(b3, RestartField::WriterBuffer);
    let w4 = when(b4, RestartField::Tika);
    let w5 = when(b5, RestartField::Watcher);
    let w6 = when(b6, RestartField::LogLevel);
    assert(restart_fields(old, new, dir_changed) == w1 + w2 + w3 + w4 + w5 + w6);
    assert forall|x: RestartField| #[trigger] restart_fields(old, new, dir_changed).contains(x) <==> (
    w1.contains(x) || w2.contains(x) || w3.contains(x) || w4.contains(x) || w5.contains(x)
        || w6.contains(x)) by {
        lemma_concat_contains(w1, w2, x);
        lemma_concat_contains(w1 + w2, w3, x);
        lemma_concat_contains(w1 + w2 + w3, w4, x);
        lemma_concat_contains(w1 + w2 + w3 + w4, w5, x);
        lemma_concat_contains(w1 + w2 + w3 + w4 + w5, w6, x);
    }
    assert forall|b: bool, f: RestartField, x: RestartField| #[trigger] when(b, f).contains(x) <==> (b
        && f == x) by {
        if b {
            assert(when(b, f)[0] == f);
        }
    }
}

proof fn lemma_concat_contains(a: Seq<RestartField>, b: Seq<RestartField>, x: RestartField)
    ensures
        (a + b).contains(x) <==> a.contains(x) || b.contains(x),
{
    if a.contains(x) {
        let k = choose|k: int| 0 <= k < a.len() && a[k] == x;
        assert((a + b)[k] == x);
    }
    if b.contains(x) {
        let k = choose|k: int| 0 <= k < b.len() && b[k] == x;
        assert((a + b)[a.len() + k] == x);
    }
    if (a + b).contains(x) {
        let k = choose|k: int| 0 <= k < (a + b).len() && (a + b)[k] == x;
        if k < a.len() {
            assert(a[k] == x);
        } else {
            assert(b[k - a.len()] == x);
        }
    }
}

fn push_when(v: &mut Vec<RestartField>, b: bool, f: RestartField)
    ensures
        final(v)@ == old(v)@ + when(b, f),
{
    if b {
        v.push(f);
    } else {
        assert(old(v)@ + when(b, f) =~= old(v)@);
    }
}

/// Lists the settings that changed from `old` to `new` and need a restart.
/// Whether the index directory counts as changed is decided by comparing the
/// two paths as paths (`same_path`); `restart_fields_given` does the rest.
pub fn changed_restart_fields(old: &Config, new: &Config) -> (r: Vec<RestartField>)
    ensures
        exists|dir_changed: bool|
            (old.index.dir@ == new.index.dir@ ==> !dir_changed) && r@ == restart_fields(
                *old,
                *new,
                dir_changed,
            ),
        portable_path(old.index.dir@) && portable_path(new.index.dir@) ==> r@ == restart_fields(
            *old,
            *new,
            !same_components(old.index.dir@, new.index.dir@),
        ),
{
    let dir_changed = !same_path(&old.index.dir, &new.index.dir);
    restart_fields_given(old, new, dir_changed)
}

/// The settings that need a restart, given whether the index directory
/// changed.
pub fn restart_fields_given(old: &Config, new: &Config, dir_changed: bool) -> (r: Vec<
    RestartField,
>)
    ensures
        r@ == restart_fields(*old, *new, dir_changed),
{
    let mut v: Vec<RestartField> = Vec::new();
    push_when(
        &mut v,
        old.server.port != new.server.port || old.server.host != new.server.host,
        RestartField::ServerAddress,
    );
    push_when(&mut v, dir_changed, RestartField::IndexDir);
    push_when(
        &mut v,
        old.index.writer_buffer_bytes != new.index.writer_buffer_bytes,
        RestartField::WriterBuffer,
    );
    push_when(
        &mut v,
        !same_opt_text(&old.parser.tika_server_url, &new.parser.tika_server_url) || !same_opt_text(
            &old.parser.tika_jar_path,
            &new.parser.tika_jar_path,
        ) || old.parser.fallback_basic != new.parser.fallback_basic,
        RestartField::Tika,
    );
    push_when(
        &mut v,
        old.watcher.enabled != new.watcher.enabled || old.watcher.debounce_ms
            != new.watcher.debounce_ms || old.watcher.full_scan_interval_secs
            != new.watcher.full_scan_interval_secs,
        RestartField::Watcher,
    );
    push_when(&mut v, old.logging.level != new.logging.level, RestartField::LogLevel);
    assert(v@ =~= restart_fields(*old, *new, dir_changed));
    v
}

/// Submitting the configuration in force again needs no restart: no
/// setting that only applies after a restart differs.
pub proof fn law_same_config_needs_no_restart(c: Config)
    ensures
        restart_fields(c, c, false) == Seq::<RestartField>::empty(),
{
    assert(restart_fields(c, c, false) =~= Seq::<RestartField>::empty());
}

/// Whether `new` passes the checks of an update, and if not the first
/// failed one.
pub open spec fn update_error(new: Config) -> Option<ConfigError> {
    if new.server.port == 0 {
        Some(ConfigError::InvalidPort)
    } else if trim(new.server.host@).len() == 0 {
        Some(ConfigError::EmptyHost)
    } else if new.index.max_file_size_bytes == 0 {
        Some(ConfigError::ZeroMaxFileSize)
    } else if !valid_log_level(lowercase(new.logging.level@)) {
        Some(ConfigError::InvalidLogLevel(new.logging.level))
    } else {
        None
    }
}

/// An update is refused for the first failed check, in this order: port 0,
/// a blank host, a zero size limit, and a log level that is not `trace`,
/// `debug`, `info`, `warn` or `error` in any case; one that passes all four
/// is accepted.
pub proof fn law_update_checks(c: Config)
    ensures
        c.server.port == 0 ==> update_error(c) == Some(ConfigError::InvalidPort),
        c.server.port != 0 && trim(c.server.host@).len() == 0 ==> update_error(c) == Some(
            ConfigError::EmptyHost,
        ),
        c.server.port != 0 && trim(c.server.host@).len() > 0 && c.index.max_file_size_bytes == 0
            ==> update_error(c) == Some(ConfigError::ZeroMaxFileSize),
        c.server.port != 0 && trim(c.server.host@).len() > 0 && c.index.max_file_size_bytes > 0
            ==> (update_error(c) is None <==> (lowercase(c.logging.level@) == "trace"@ || lowercase(
            c.logging.level@,
        ) == "debug"@ || lowercase(c.logging.level@) == "info"@ || lowercase(c.logging.level@)
            == "warn"@ || lowercase(c.logging.level@) == "error"@)),
{
}

/// `new` is the normal form of `given`, with `dirs` as its watch list.
pub open spec fn is_normalized_update(given: Config, dirs: Seq<Seq<char>>, new: Config) -> bool {
    &&& new.server == given.server
    &&& new.index == given.index
    &&& opt_text(new.parser.tika_server_url) == tika_setting(opt_text(given.parser.tika_server_url))
    &&& opt_text(new.parser.tika_jar_path) == tika_setting(opt_text(given.parser.tika_jar_path))
    &&& new.parser.fallback_basic == given.parser.fallback_basic
    &&& new.watcher.watch_dirs.deep_view() == dirs
    &&& new.watcher.enabled == given.watcher.enabled
    &&& new.watcher.debounce_ms == given.watcher.debounce_ms
    &&& new.watcher.full_scan_interval_secs == given.watcher.full_scan_interval_secs
    &&& strictly_sorted(new.watcher.exclude_extensions.deep_view())
    &&& new.watcher.exclude_extensions.deep_view().to_set() == extension_set(
        given.watcher.exclude_extensions.deep_view(),
    )
    &&& strictly_sorted(new.watcher.include_extensions.deep_view())
    &&& new.watcher.include_extensions.deep_view().to_set() == extension_set(
        given.watcher.include_extensions.deep_view(),
    )
    &&& new.watcher.exclude_patterns.deep_view() == non_blank_entries(
        given.watcher.exclude_patterns.deep_view(),
    )
    &&& new.logging == given.logging
}

fn is_valid_log_level(level: &str) -> (b: bool)
    ensures
        b == valid_log_level(lowercase(level@)),
{
    let l = to_lowercase(level);
    let lv = chars_of(&l);
    let ok = crate::text::equals_str(&lv, "trace") || crate::text::equals_str(&lv, "debug")
        || crate::text::equals_str(&lv, "info") || crate::text::equals_str(&lv, "warn")
        || crate::text::equals_str(&lv, "error");
    ok
}

/// Checks and normalizes a configuration submitted as an update: the
/// watch list is replaced by `runtime_dirs` (it is managed on its own), the
/// port, host, size limit and log level are checked, extension lists are
/// normalized, blank exclusion patterns dropped and empty Tika settings
/// unset. On success it also lists the changes that need a restart.
pub fn prepare_update(given: Config, runtime_dirs: Vec<String>, old: &Config) -> (r: Result<
    (Config, Vec<RestartField>),
    ConfigError,
>)
    ensures
        match r {
            Err(e) => update_error(given) == Some(e),
            Ok((new, fields)) => {
                &&& update_error(given) is None
                &&& is_normalized_update(given, runtime_dirs.deep_view(), new)
                &&& exists|dir_changed: bool|
                    (old.index.dir@ == new.index.dir@ ==> !dir_changed) && fields@
                        == restart_fields(*old, new, dir_changed)
                &&& portable_path(old.index.dir@) && portable_path(new.index.dir@) ==> fields@
                    == restart_fields(*old, new, !same_components(old.index.dir@, new.index.dir@))
            },
        },
{
    if given.server.port == 0 {
        return Err(ConfigError::InvalidPort);
    }
    if is_blank(&given.server.host) {
        return Err(ConfigError::EmptyHost);
    }
    if given.index.max_file_size_bytes == 0 {
        return Err(ConfigError::ZeroMaxFileSize);
    }
    if !is_valid_log_level(&given.logging.level) {
        return Err(ConfigError::InvalidLogLevel(given.logging.level));
    }
    let exclude_extensions = normalize_extensions(&given.watcher.exclude_extensions);
    let include_extensions = normalize_extensions(&given.watcher.include_extensions);
    let exclude_patterns = drop_blank(&given.watcher.exclude_patterns);
    let Config { server, index, parser, watcher, logging } = given;
    let new = Config {
        server,
        index,
        parser: normalize_parser(parser),
        watcher: WatcherConfig {
            watch_dirs: runtime_dirs,
            enabled: watcher.enabled,
            debounce_ms: watcher.debounce_ms,
            full_scan_interval_secs: watcher.full_scan_interval_secs,
            exclude_extensions,
            include_extensions,
            exclude_patterns,
        },
        logging,
    };
    let fields = changed_restart_fields(old, &new);
    Ok((new, fields))
}


impl ConfigError {
    /// The message an update refused for this reason reports.
    pub fn message(&self) -> (m: String)
        ensures
            match self {
                ConfigError::InvalidPort => m@ == "Invalid port: must be 1-65535"@,
                ConfigError::EmptyHost => m@ == "Host must not be empty"@,
                ConfigError::ZeroMaxFileSize => m@ == "Max file size must be greater than 0"@,
                ConfigError::InvalidLogLevel(l) => m@ == "Invalid log level: "@ + l@,
            },
    {
        match self {
            ConfigError::InvalidPort => owned("Invalid port: must be 1-65535"),
            ConfigError::EmptyHost => owned("Host must not be empty"),
            ConfigError::ZeroMaxFileSize => owned("Max file size must be greater than 0"),
            ConfigError::InvalidLogLevel(l) => {
                let mut m = owned("Invalid log level: ");
                push_str(&mut m, l.as_str());
                m
            },
        }
    }
}

pub open spec fn restart_label(f: RestartField) -> Seq<char> {
    match f {
        RestartField::ServerAddress => "服务地址/端口"@,
        RestartField::IndexDir => "索引目录"@,
        RestartField::WriterBuffer => "写入缓冲区"@,
        RestartField::Tika => "Tika 解析"@,
        RestartField::Watcher => "监控开关/防抖/定时全量扫描"@,
        RestartField::LogLevel => "日志级别"@,
    }
}

impl RestartField {
    /// How the setting is named to users.
    pub fn label(&self) -> (l: String)
        ensures
            l@ == restart_label(*self),
    {
        match self {
            RestartField::ServerAddress => owned("服务地址/端口"),
            RestartField::IndexDir => owned("索引目录"),
            RestartField::WriterBuffer => owned("写入缓冲区"),
            RestartField::Tika => owned("Tika 解析"),
            RestartField::Watcher => owned("监控开关/防抖/定时全量扫描"),
            RestartField::LogLevel => owned("日志级别"),
        }
    }
}

/// The labels of `fields`, separated by `、`.
pub open spec fn joined_labels(fields: Seq<RestartField>) -> Seq<char>
    decreases fields.len(),
{
    if fields.len() == 0 {
        seq![]
    } else if fields.len() == 1 {
        restart_label(fields[0])
    } else {
        joined_labels(fields.drop_last()) + "、"@ + restart_label(fields.last())
    }
}

/// What a saved update reports: that everything applies at once, or which
/// settings need a restart.
pub open spec fn update_message_text(fields: Seq<RestartField>) -> Seq<char> {
    if fields.len() == 0 {
        "配置已保存并即时生效（排除/包含扩展名、排除模式、单文件大小上限立即应用于新索引的文件）"@
    } else {
        "配置已保存，以下变更重启后生效: "@ + joined_labels(fields) + "；其余规则已即时生效"@
    }
}

/// The message reported for a saved update.
pub fn update_message(fields: &Vec<RestartField>) -> (m: String)
    ensures
        m@ == update_message_text(fields@),
{
    if fields.len() == 0 {
        return owned("配置已保存并即时生效（排除/包含扩展名、排除模式、单文件大小上限立即应用于新索引的文件）");
    }
    let mut m = owned("配置已保存，以下变更重启后生效: ");
    let ghost head = m@;
    let mut i: usize = 0;
    assert(fields@.take(0) == Seq::<RestartField>::empty());
    while i < fields.len()
        invariant
            i <= fields@.len(),
            fields@.len() > 0,
            m@ == head + joined_labels(fields@.take(i as int)),
        decreases fields@.len() - i,
    {
        assert(fields@.take(i + 1).drop_last() == fields@.take(i as int));
        assert(fields@.take(i + 1).last() == fields@[i as int]);
        if i > 0 {
            push_str(&mut m, "、");
        } else {
            assert(fields@.take(1) == seq![fields@[0]]);
        }
        let l = fields[i].label();
        push_str(&mut m, l.as_str());
        i += 1;
    }
    assert(fields@.take(i as int) == fields@);
    push_str(&mut m, "；其余规则已即时生效");
    m
}

/// A configuration read from its file, with empty Tika settings unset
/// (relative paths are resolved by the caller).
pub fn normalize_loaded(cfg: Config) -> (r: Config)
    ensures
        r.server == cfg.server,
        r.index == cfg.index,
        opt_text(r.parser.tika_server_url) == tika_setting(opt_text(cfg.parser.tika_server_url)),
        opt_text(r.parser.tika_jar_path) == tika_setting(opt_text(cfg.parser.tika_jar_path)),
        r.parser.fallback_basic == cfg.parser.fallback_basic,
        r.watcher == cfg.watcher,
        r.logging == cfg.logging,
{
    let Config { server, index, parser, watcher, logging } = cfg;
    Config { server, index, parser: normalize_parser(parser), watcher, logging }
}

}
