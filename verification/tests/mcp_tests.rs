use anywords::api::{check_search_text, export_format, export_query, ExportFormat, message, search_error_message, PreviewQuery, SuggestQuery};
use anywords::mcp::{
    classify_method, classify_tool, content_limit, is_truncated, mcp_tool_specs,
    method_not_found_code, ParamKind,
    method_not_found_message, mode_from_name, search_query_from_args, size_in_mib,
    unknown_tool_message, McpMethod, McpTool,
};
use anywords::search::{SearchMode, SearchQuery, SortBy};

#[test]
fn methods_and_tools() {
    assert_eq!(classify_method("initialize"), McpMethod::Initialize);
    assert_eq!(classify_method("initialized"), McpMethod::Initialized);
    assert_eq!(classify_method("ping"), McpMethod::Ping);
    assert_eq!(classify_method("tools/list"), McpMethod::ToolsList);
    assert_eq!(classify_method("tools/call"), McpMethod::ToolsCall);
    assert_eq!(classify_method("resources/list"), McpMethod::ResourcesList);
    assert_eq!(classify_method("prompts/list"), McpMethod::PromptsList);
    assert_eq!(classify_method("Ping"), McpMethod::NotFound);
    assert_eq!(method_not_found_code(), -32601);
    assert_eq!(method_not_found_message("x/y"), "Method not found: x/y");
    assert_eq!(classify_tool("search"), Some(McpTool::Search));
    assert_eq!(classify_tool("index_stats"), Some(McpTool::IndexStats));
    assert_eq!(classify_tool("scan_directory"), Some(McpTool::ScanDirectory));
    assert_eq!(classify_tool("get_file_content"), Some(McpTool::GetFileContent));
    assert_eq!(classify_tool("delete"), None);
    assert_eq!(unknown_tool_message("delete"), "Unknown tool: delete");
}

#[test]
fn search_tool_arguments() {
    assert!(search_query_from_args(None, Some(5), None, None, None, None).is_none());
    let q = search_query_from_args(Some("notes"), None, None, None, None, None).unwrap();
    assert_eq!(q.q, "notes");
    assert_eq!(q.limit, 10);
    assert_eq!(q.offset, 0);
    assert_eq!(q.mode, SearchMode::Fulltext);
    assert_eq!(q.sort, SortBy::Relevance);
    assert!(q.highlight);
    assert_eq!(q.snippet_window, 200);
    assert!(q.date_from.is_none() && q.size_max.is_none());
    let r = search_query_from_args(Some("x"), Some(500), Some(7), Some("pdf"), Some("/docs"), Some("regex"))
        .unwrap();
    assert_eq!(r.limit, 50);
    assert_eq!(r.offset, 7);
    assert_eq!(r.file_type.as_deref(), Some("pdf"));
    assert_eq!(r.path_filter.as_deref(), Some("/docs"));
    assert_eq!(r.mode, SearchMode::Regex);
    assert_eq!(mode_from_name("phrase"), SearchMode::Phrase);
    assert_eq!(mode_from_name("wildcard"), SearchMode::Wildcard);
    assert_eq!(mode_from_name("other"), SearchMode::Fulltext);
}

#[test]
fn file_content_tool() {
    assert_eq!(content_limit(None), 5000);
    assert_eq!(content_limit(Some(12)), 12);
    assert!(!is_truncated("abcd", 4));
    assert!(is_truncated("abcde", 4));
    assert!(!is_truncated("abc", 4));
    assert!(!is_truncated("", 0));
    assert!(!is_truncated("中", 1));
    assert!(is_truncated("中中", 1));
    assert_eq!(size_in_mib(5 * 1024 * 1024 + 1), 5);
    assert_eq!(size_in_mib(1024 * 1024 - 1), 0);
}

#[test]
fn api_search_checks() {
    assert!(check_search_text("rust").is_ok());
    assert_eq!(check_search_text("  ").unwrap_err(), "Query string 'q' is required");
    assert_eq!(search_error_message("bad regex: (("), "Invalid regex pattern: bad regex: ((");
    assert_eq!(search_error_message("boom"), "Search failed: boom");
    assert_eq!(message("Indexed: ", "/a"), "Indexed: /a");
    assert_eq!(SuggestQuery { q: "x".to_string(), limit: None }.limit_or_default(), 10);
    assert_eq!(SuggestQuery { q: "x".to_string(), limit: Some(3) }.limit_or_default(), 3);
    assert_eq!(PreviewQuery { path: "p".to_string(), max_len: None }.max_len_or_default(), 5000);
}

#[test]
fn export_runs_from_the_start_with_a_cap() {
    let q = SearchQuery {
        q: "x".to_string(),
        limit: 20000,
        offset: 40,
        file_type: None,
        path_filter: None,
        mode: SearchMode::Phrase,
        sort: SortBy::Name,
        date_from: Some(1),
        date_to: None,
        size_min: None,
        size_max: None,
        highlight: false,
        snippet_window: 5,
    };
    let e = export_query(q);
    assert_eq!(e.limit, 10000);
    assert_eq!(e.offset, 0);
    assert_eq!(e.mode, SearchMode::Phrase);
    assert_eq!(e.sort, SortBy::Name);
    assert_eq!(e.date_from, Some(1));
    assert!(!e.highlight);
}

#[test]
fn listed_tools() {
    let tools = mcp_tool_specs();
    let names: Vec<&str> = tools.iter().map(|t| t.name.as_str()).collect();
    assert_eq!(names, vec!["search", "index_stats", "scan_directory", "get_file_content"]);
    for t in &tools {
        assert!(classify_tool(&t.name).is_some());
        for r in &t.required {
            assert!(t.params.iter().any(|p| &p.name == r));
        }
    }
    let search = &tools[0];
    assert_eq!(search.required, vec!["q".to_string()]);
    assert_eq!(search.params.len(), 6);
    assert_eq!(search.params[1].name, "limit");
    assert_eq!(search.params[1].kind, ParamKind::Integer);
    assert_eq!(search.params[1].default_integer, Some(10));
    assert_eq!(search.params[5].default_text, Some("fulltext".to_string()));
    assert_eq!(search.params[5].choices, vec!["fulltext", "phrase", "regex", "wildcard"]);
    assert!(tools[1].params.is_empty() && tools[1].required.is_empty());
    assert_eq!(tools[2].required, vec!["directory".to_string()]);
    assert_eq!(tools[3].params[1].name, "max_chars");
    assert_eq!(tools[3].params[1].default_integer, Some(5000));
}

#[test]
fn export_formats() {
    assert_eq!(export_format(Some("json")), ExportFormat::Json);
    assert_eq!(export_format(Some("csv")), ExportFormat::Csv);
    assert_eq!(export_format(Some("JSON")), ExportFormat::Csv);
    assert_eq!(export_format(None), ExportFormat::Csv);
}
