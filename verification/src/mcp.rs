//! The Model Context Protocol endpoint: which JSON-RPC methods and tools
//! exist, and how tool arguments become requests.
use vstd::prelude::*;
use crate::search::{
    SearchMode, SearchQuery, SortBy,
};
use crate::config::opt_text;
use crate::text::{
    chars_of, equals_str, owned, push_str,
};

verus! {

/// The JSON-RPC methods the endpoint answers.
#[derive(Debug, Clone, Copy, PartialEq, Eq, Structural)]
pub enum McpMethod {
    Initialize,
    Initialized,
    Ping,
    ToolsList,
    ToolsCall,
    ResourcesList,
    PromptsList,
    /// Any other method: answered with error -32601.
    NotFound,
}

pub open spec fn method_of(m: Seq<char>) -> McpMethod {
    if m == "initialize"@ {
        McpMethod::Initialize
    } else if m == "initialized"@ {
        McpMethod::Initialized
    } else if m == "ping"@ {
        McpMethod::Ping
    } else if m == "tools/list"@ {
        McpMethod::ToolsList
    } else if m == "tools/call"@ {
        McpMethod::ToolsCall
    } else if m == "resources/list"@ {
        McpMethod::ResourcesList
    } else if m == "prompts/list"@ {
        McpMethod::PromptsList
    } else {
        McpMethod::NotFound
    }
}

/// Each JSON-RPC method the endpoint answers is named by exactly one name,
/// and every other name is not found.
pub proof fn law_method_names(m: Seq<char>)
    ensures
        method_of(m) == McpMethod::Initialize <==> m == "initialize"@,
        method_of(m) == McpMethod::Initialized <==> m == "initialized"@,
        method_of(m) == McpMethod::Ping <==> m == "ping"@,
        method_of(m) == McpMethod::ToolsList <==> m == "tools/list"@,
        method_of(m) == McpMethod::ToolsCall <==> m == "tools/call"@,
        method_of(m) == McpMethod::ResourcesList <==> m == "resources/list"@,
        method_of(m) == McpMethod::PromptsList <==> m == "prompts/list"@,
        method_of(m) == McpMethod::NotFound <==> !(m == "initialize"@ || m == "initialized"@ || m == "ping"@ || m == "tools/list"@ || m == "tools/call"@ || m == "resources/list"@ || m == "prompts/list"@),
{
    reveal_strlit("initialize");
    reveal_strlit("initialized");
    reveal_strlit("ping");
    reveal_strlit("tools/list");
    reveal_strlit("tools/call");
    reveal_strlit("resources/list");
    reveal_strlit("prompts/list");
    assert("initialize"@.len() != "initialized"@.len());
    assert("initialize"@.len() != "ping"@.len());
    assert("initialize"@[0] != "tools/list"@[0]);
    assert("initialize"@[0] != "tools/call"@[0]);
    assert("initialize"@.len() != "resources/list"@.len());
    assert("initialize"@.len() != "prompts/list"@.len());
    assert("initialized"@.len() != "ping"@.len());
    assert("initialized"@.len() != "tools/list"@.len());
    assert("initialized"@.len() != "tools/call"@.len());
    assert("initialized"@.len() != "resources/list"@.len());
    assert("initialized"@.len() != "prompts/list"@.len());
    assert("ping"@.len() != "tools/list"@.len());
    assert("ping"@.len() != "tools/call"@.len());
    assert("ping"@.len() != "resources/list"@.len());
    assert("ping"@.len() != "prompts/list"@.len());
    assert("tools/list"@[6] != "tools/call"@[6]);
    assert("tools/list"@.len() != "resources/list"@.len());
    assert("tools/list"@.len() != "prompts/list"@.len());
    assert("tools/call"@.len() != "resources/list"@.len());
    assert("tools/call"@.len() != "prompts/list"@.len());
    assert("resources/list"@.len() != "prompts/list"@.len());
}

/// Which method a request names.
pub fn classify_method(m: &str) -> (r: McpMethod)
    ensures
        r == method_of(m@),
{
    let v = chars_of(m);
    if equals_str(&v, "initialize") {
        McpMethod::Initialize
    } else if equals_str(&v, "initialized") {
        McpMethod::Initialized
    } else if equals_str(&v, "ping") {
        McpMethod::Ping
    } else if equals_str(&v, "tools/list") {
        McpMethod::ToolsList
    } else if equals_str(&v, "tools/call") {
        McpMethod::ToolsCall
    } else if equals_str(&v, "resources/list") {
        McpMethod::ResourcesList
    } else if equals_str(&v, "prompts/list") {
        McpMethod::PromptsList
    } else {
        McpMethod::NotFound
    }
}

/// JSON-RPC error code for an unknown method.
pub fn method_not_found_code() -> (c: i32)
    ensures
        c == -32601,
{
    -32601
}

/// The error message for an unknown method.
pub fn method_not_found_message(m: &str) -> (r: String)
    ensures
        r@ == "Method not found: "@ + m@,
{
    let mut r = owned("Method not found: ");
    push_str(&mut r, m);
    r
}

/// The tools the endpoint offers.
#[derive(Debug, Clone, Copy, PartialEq, Eq, Structural)]
pub enum McpTool {
    Search,
    IndexStats,
    ScanDirectory,
    GetFileContent,
}

pub open spec fn tool_of(name: Seq<char>) -> Option<McpTool> {
    if name == "search"@ {
        Some(McpTool::Search)
    } else if name == "index_stats"@ {
        Some(McpTool::IndexStats)
    } else if name == "scan_directory"@ {
        Some(McpTool::ScanDirectory)
    } else if name == "get_file_content"@ {
        Some(McpTool::GetFileContent)
    } else {
        None
    }
}

/// Each tool is called by exactly one name, and every other name is
/// unknown.
pub proof fn law_tool_names(name: Seq<char>)
    ensures
        tool_of(name) == Some(McpTool::Search) <==> name == "search"@,
        tool_of(name) == Some(McpTool::IndexStats) <==> name == "index_stats"@,
        tool_of(name) == Some(McpTool::ScanDirectory) <==> name == "scan_directory"@,
        tool_of(name) == Some(McpTool::GetFileContent) <==> name == "get_file_content"@,
        tool_of(name) is None <==> !(name == "search"@ || name == "index_stats"@ || name == "scan_directory"@ || name == "get_file_content"@),
{
    reveal_strlit("search");
    reveal_strlit("index_stats");
    reveal_strlit("scan_directory");
    reveal_strlit("get_file_content");
    assert("search"@.len() != "index_stats"@.len());
    assert("search"@.len() != "scan_directory"@.len());
    assert("search"@.len() != "get_file_content"@.len());
    assert("index_stats"@.len() != "scan_directory"@.len());
    assert("index_stats"@.len() != "get_file_content"@.len());
    assert("scan_directory"@.len() != "get_file_content"@.len());
}

/// Which tool a `tools/call` names.
pub fn classify_tool(name: &str) -> (r: Option<McpTool>)
    ensures
        r == tool_of(name@),
{
    let v = chars_of(name);
    if equals_str(&v, "search") {
        Some(McpTool::Search)
    } else if equals_str(&v, "index_stats") {
        Some(McpTool::IndexStats)
    } else if equals_str(&v, "scan_directory") {
        Some(McpTool::ScanDirectory)
    } else if equals_str(&v, "get_file_content") {
        Some(McpTool::GetFileContent)
    } else {
        None
    }
}

/// The error message for an unknown tool.
pub fn unknown_tool_message(name: &str) -> (r: String)
    ensures
        r@ == "Unknown tool: "@ + name@,
{
    let mut r = owned("Unknown tool: ");
    push_str(&mut r, name);
    r
}

pub open spec fn mode_of(m: Seq<char>) -> SearchMode {
    if m == "phrase"@ {
        SearchMode::Phrase
    } else if m == "regex"@ {
        SearchMode::Regex
    } else if m == "wildcard"@ {
        SearchMode::Wildcard
    } else {
        SearchMode::Fulltext
    }
}

/// `phrase`, `regex` and `wildcard` name their search modes; every other
/// name means full text.
pub proof fn law_mode_names(m: Seq<char>)
    ensures
        mode_of(m) == SearchMode::Phrase <==> m == "phrase"@,
        mode_of(m) == SearchMode::Regex <==> m == "regex"@,
        mode_of(m) == SearchMode::Wildcard <==> m == "wildcard"@,
        mode_of(m) == SearchMode::Fulltext <==> !(m == "phrase"@ || m == "regex"@ || m == "wildcard"@),
{
    reveal_strlit("phrase");
    reveal_strlit("regex");
    reveal_strlit("wildcard");
    assert("phrase"@.len() != "regex"@.len());
    assert("phrase"@.len() != "wildcard"@.len());
    assert("regex"@.len() != "wildcard"@.len());
}

/// The search mode a tool argument names; full text for anything else.
pub fn mode_from_name(m: &str) -> (r: SearchMode)
    ensures
        r == mode_of(m@),
{
    let v = chars_of(m);
    if equals_str(&v, "phrase") {
        SearchMode::Phrase
    } else if equals_str(&v, "regex") {
        SearchMode::Regex
    } else if equals_str(&v, "wildcard") {
        SearchMode::Wildcard
    } else {
        SearchMode::Fulltext
    }
}

pub open spec fn opt_view(o: Option<&str>) -> Option<Seq<char>> {
    match o {
        Some(s) => Some(s@),
        None => None,
    }
}

fn owned_opt(o: Option<&str>) -> (r: Option<String>)
    ensures
        crate::config::opt_text(r) == opt_view(o),
{
    match o {
        Some(s) => Some(owned(s)),
        None => None,
    }
}

/// The search a `search` tool call asks for: `q` is required; at most 50
/// results (10 by default) from `offset` (0 by default); the mode by name
/// (full text by default); relevance order, highlighting, a 200-byte
/// snippet window, no date or size range.
pub fn search_query_from_args(
    q: Option<&str>,
    limit: Option<u64>,
    offset: Option<u64>,
    file_type: Option<&str>,
    path_filter: Option<&str>,
    mode: Option<&str>,
) -> (r: Option<SearchQuery>)
    ensures
        q is None <==> r is None,
        r matches Some(s) ==> {
            &&& Some(s.q@) == opt_view(q)
            &&& s.limit == ({
                let l = match limit {
                    Some(l) => l,
                    None => 10,
                };
                if l < 50 {
                    l
                } else {
                    50
                }
            }) as usize
            &&& s.offset == (match offset {
                Some(o) => o,
                None => 0,
            }) as usize
            &&& crate::config::opt_text(s.file_type) == opt_view(file_type)
            &&& crate::config::opt_text(s.path_filter) == opt_view(path_filter)
            &&& s.mode == (match mode {
                Some(m) => mode_of(m@),
                None => SearchMode::Fulltext,
            })
            &&& s.sort == SortBy::Relevance
            &&& s.date_from is None && s.date_to is None
            &&& s.size_min is None && s.size_max is None
            &&& s.highlight
            &&& s.snippet_window == 200
        },
{
    let q = match q {
        Some(q) => owned(q),
        None => return None,
    };
    let l = match limit {
        Some(l) => l,
        None => 10,
    };
    let l = if l < 50 {
        l
    } else {
        50
    };
    let o = match offset {
        Some(o) => o,
        None => 0,
    };
    let mode = match mode {
        Some(m) => mode_from_name(m),
        None => SearchMode::Fulltext,
    };
    Some(
        SearchQuery {
            q,
            limit: l as usize,
            offset: o as usize,
            file_type: owned_opt(file_type),
            path_filter: owned_opt(path_filter),
            mode,
            sort: SortBy::Relevance,
            date_from: None,
            date_to: None,
            size_min: None,
            size_max: None,
            highlight: true,
            snippet_window: 200,
        },
    )
}

/// The number of characters a `get_file_content` call asks for (5000 by default).
pub fn content_limit(max_chars: Option<u64>) -> (r: usize)
    ensures
        r == (match max_chars {
            Some(m) => m,
            None => 5000,
        }) as usize,
{
    match max_chars {
        Some(m) => m as usize,
        None => 5000,
    }
}

/// Whether returned content counts as truncated: it has more than
/// `max_chars` characters (a cut preview carries `...` beyond them).
pub fn is_truncated(content: &str, max_chars: usize) -> (b: bool)
    ensures
        b == (content@.len() > max_chars),
{
    let v = chars_of(content);
    v.len() > max_chars
}

/// A size in whole MiB.
pub fn size_in_mib(bytes: u64) -> (r: u64)
    ensures
        r == bytes / 1024 / 1024,
{
    bytes / 1024 / 1024
}

/// The JSON type of a tool parameter.
#[derive(Debug, Clone, Copy, PartialEq, Eq, Structural)]
pub enum ParamKind {
    Text,
    Integer,
}

/// A parameter of a tool, as the tool list describes it.
#[derive(Debug)]
pub struct ToolParam {
    pub name: String,
    pub kind: ParamKind,
    pub description: String,
    /// The default of an integer parameter.
    pub default_integer: Option<u64>,
    /// The default of a text parameter.
    pub default_text: Option<String>,
    /// The values a text parameter may take, where they are fixed.
    pub choices: Vec<String>,
}

/// A tool of the endpoint: its name, what it does, its parameters and those
/// that must be given.
#[derive(Debug)]
pub struct ToolSpec {
    pub name: String,
    pub description: String,
    pub params: Vec<ToolParam>,
    pub required: Vec<String>,
}

/// A tool parameter as plain values.
pub struct ParamView {
    pub name: Seq<char>,
    pub kind: ParamKind,
    pub description: Seq<char>,
    pub default_integer: Option<u64>,
    pub default_text: Option<Seq<char>>,
    pub choices: Seq<Seq<char>>,
}

/// A listed tool as plain values.
pub struct ToolView {
    pub name: Seq<char>,
    pub description: Seq<char>,
    pub params: Seq<ParamView>,
    pub required: Seq<Seq<char>>,
}

/// The texts of a list of strings.
pub open spec fn texts_view(v: Seq<String>) -> Seq<Seq<char>> {
    v.map_values(|s: String| s@)
}

impl View for ToolParam {
    type V = ParamView;

    open spec fn view(&self) -> ParamView {
        ParamView {
            name: self.name@,
            kind: self.kind,
            description: self.description@,
            default_integer: self.default_integer,
            default_text: opt_text(self.default_text),
            choices: texts_view(self.choices@),
        }
    }
}

impl View for ToolSpec {
    type V = ToolView;

    open spec fn view(&self) -> ToolView {
        ToolView {
            name: self.name@,
            description: self.description@,
            params: self.params@.map_values(|p: ToolParam| p@),
            required: texts_view(self.required@),
        }
    }
}

/// A parameter, field by field.
pub open spec fn param_view(
    name: Seq<char>,
    kind: ParamKind,
    description: Seq<char>,
    default_integer: Option<u64>,
    default_text: Option<Seq<char>>,
    choices: Seq<Seq<char>>,
) -> ParamView {
    ParamView { name, kind, description, default_integer, default_text, choices }
}

/// The parameters of `search`.
pub open spec fn search_params() -> Seq<ParamView> {
    seq![
        param_view("q"@, ParamKind::Text, "Search query (supports Chinese, English, keywords)"@, None, None, seq![]),
        param_view("limit"@, ParamKind::Integer, "Max results to return (default: 10, max: 50)"@, Some(10), None, seq![]),
        param_view("offset"@, ParamKind::Integer, "Pagination offset (default: 0)"@, Some(0), None, seq![]),
        param_view("file_type"@, ParamKind::Text, "Filter by file extension, e.g. 'pdf', 'docx', 'txt'"@, None, None, seq![]),
        param_view("path_filter"@, ParamKind::Text, "Filter results by path substring"@, None, None, seq![]),
        param_view("mode"@, ParamKind::Text, "Search mode (default: fulltext)"@, None, Some("fulltext"@), seq!["fulltext"@, "phrase"@, "regex"@, "wildcard"@]),
    ]
}

/// The tools the endpoint lists, in order.
pub open spec fn tool_specs() -> Seq<ToolView> {
    seq![
        ToolView {
            name: "search"@,
            description: "Full-text search across all indexed local files. Supports Chinese and English. Returns matching file paths, snippets, and relevance scores."@,
            params: search_params(),
            required: seq!["q"@],
        },
        ToolView {
            name: "index_stats"@,
            description: "Get statistics about the current index: number of indexed documents, index size, and last indexing time."@,
            params: seq![],
            required: seq![],
        },
        ToolView {
            name: "scan_directory"@,
            description: "Scan a local directory and add all supported files to the index in the background. Returns immediately. Use index_stats to monitor progress. Supported formats: PDF, DOCX, XLSX, PPTX, TXT, MD, and more."@,
            params: seq![param_view("directory"@, ParamKind::Text, "Absolute path to the directory to index"@, None, None, seq![])],
            required: seq!["directory"@],
        },
        ToolView {
            name: "get_file_content"@,
            description: "Get the text content of a specific file from the index (by file path). Useful to read document contents for further analysis."@,
            params: seq![
                param_view("path"@, ParamKind::Text, "Absolute path of the file to retrieve"@, None, None, seq![]),
                param_view("max_chars"@, ParamKind::Integer, "Max characters to return (default: 5000)"@, Some(5000), None, seq![]),
            ],
            required: seq!["path"@],
        },
    ]
}

fn no_texts() -> (v: Vec<String>)
    ensures
        texts_view(v@) == Seq::<Seq<char>>::empty(),
{
    let v: Vec<String> = Vec::new();
    assert(texts_view(v@) =~= Seq::<Seq<char>>::empty());
    v
}

fn texts1(a: &str) -> (v: Vec<String>)
    ensures
        texts_view(v@) == seq![a@],
{
    let mut v: Vec<String> = Vec::new();
    v.push(owned(a));
    assert(texts_view(v@) =~= seq![a@]);
    v
}

fn param(
    name: &str,
    kind: ParamKind,
    description: &str,
    default_integer: Option<u64>,
    default_text: Option<&str>,
    choices: Vec<String>,
) -> (p: ToolParam)
    ensures
        p@ == param_view(name@, kind, description@, default_integer, opt_view(default_text), texts_view(choices@)),
{
    let default_text = match default_text {
        Some(t) => Some(owned(t)),
        None => None,
    };
    ToolParam {
        name: owned(name),
        kind,
        description: owned(description),
        default_integer,
        default_text,
        choices,
    }
}

fn mode_choices() -> (v: Vec<String>)
    ensures
        texts_view(v@) == seq!["fulltext"@, "phrase"@, "regex"@, "wildcard"@],
{
    let mut v: Vec<String> = Vec::new();
    v.push(owned("fulltext"));
    v.push(owned("phrase"));
    v.push(owned("regex"));
    v.push(owned("wildcard"));
    assert(texts_view(v@) =~= seq!["fulltext"@, "phrase"@, "regex"@, "wildcard"@]);
    v
}

fn search_tool_params() -> (v: Vec<ToolParam>)
    ensures
        v@.map_values(|p: ToolParam| p@) == search_params(),
{
    let mut v: Vec<ToolParam> = Vec::new();
    v.push(param("q", ParamKind::Text, "Search query (supports Chinese, English, keywords)", None, None, no_texts()));
    v.push(param("limit", ParamKind::Integer, "Max results to return (default: 10, max: 50)", Some(10), None, no_texts()));
    v.push(param("offset", ParamKind::Integer, "Pagination offset (default: 0)", Some(0), None, no_texts()));
    v.push(param("file_type", ParamKind::Text, "Filter by file extension, e.g. 'pdf', 'docx', 'txt'", None, None, no_texts()));
    v.push(param("path_filter", ParamKind::Text, "Filter results by path substring", None, None, no_texts()));
    v.push(param("mode", ParamKind::Text, "Search mode (default: fulltext)", None, Some("fulltext"), mode_choices()));
    assert(v@.map_values(|p: ToolParam| p@) =~= search_params());
    v
}

/// The tools the endpoint lists in answer to `tools/list`.
pub fn mcp_tool_specs() -> (v: Vec<ToolSpec>)
    ensures
        v@.map_values(|t: ToolSpec| t@) == tool_specs(),
{
    let mut v: Vec<ToolSpec> = Vec::new();
    v.push(ToolSpec {
        name: owned("search"),
        description: owned("Full-text search across all indexed local files. Supports Chinese and English. Returns matching file paths, snippets, and relevance scores."),
        params: search_tool_params(),
        required: texts1("q"),
    });
    let none: Vec<ToolParam> = Vec::new();
    let no_names = no_texts();
    assert(none@.map_values(|p: ToolParam| p@) =~= seq![]);
    v.push(ToolSpec {
        name: owned("index_stats"),
        description: owned("Get statistics about the current index: number of indexed documents, index size, and last indexing time."),
        params: none,
        required: no_names,
    });
    let mut scan: Vec<ToolParam> = Vec::new();
    scan.push(param("directory", ParamKind::Text, "Absolute path to the directory to index", None, None, no_texts()));
    assert(scan@.map_values(|p: ToolParam| p@) =~= seq![param_view("directory"@, ParamKind::Text, "Absolute path to the directory to index"@, None, None, seq![])]);
    v.push(ToolSpec {
        name: owned("scan_directory"),
        description: owned("Scan a local directory and add all supported files to the index in the background. Returns immediately. Use index_stats to monitor progress. Supported formats: PDF, DOCX, XLSX, PPTX, TXT, MD, and more."),
        params: scan,
        required: texts1("directory"),
    });
    let mut content: Vec<ToolParam> = Vec::new();
    content.push(param("path", ParamKind::Text, "Absolute path of the file to retrieve", None, None, no_texts()));
    content.push(param("max_chars", ParamKind::Integer, "Max characters to return (default: 5000)", Some(5000), None, no_texts()));
    assert(content@.map_values(|p: ToolParam| p@) =~= seq![
        param_view("path"@, ParamKind::Text, "Absolute path of the file to retrieve"@, None, None, seq![]),
        param_view("max_chars"@, ParamKind::Integer, "Max characters to return (default: 5000)"@, Some(5000), None, seq![]),
    ]);
    v.push(ToolSpec {
        name: owned("get_file_content"),
        description: owned("Get the text content of a specific file from the index (by file path). Useful to read document contents for further analysis."),
        params: content,
        required: texts1("path"),
    });
    assert(v@.map_values(|t: ToolSpec| t@) =~= tool_specs());
    v
}

/// Every listed tool is one that `tools/call` accepts, and every parameter
/// that a tool requires is one of its listed parameters.
pub proof fn law_listed_tools_are_callable(i: int)
    requires
        0 <= i < tool_specs().len(),
    ensures
        tool_of(tool_specs()[i].name) is Some,
        forall|k: int|
            0 <= k < tool_specs()[i].required.len() ==> exists|j: int|
                0 <= j < tool_specs()[i].params.len() && #[trigger] tool_specs()[i].params[j].name
                    == #[trigger] tool_specs()[i].required[k],
{
    let t = tool_specs()[i];
    if i == 0 {
        assert(t.params[0].name == t.required[0]);
    } else if i == 2 {
        assert(t.params[0].name == t.required[0]);
    } else if i == 3 {
        assert(t.params[0].name == t.required[0]);
    }
}

}
