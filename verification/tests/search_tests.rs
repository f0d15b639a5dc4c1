use anywords::search::{
    build_facets, collect_suggestions, date_bucket, default_highlight, default_limit,
    default_mode, default_snippet_window, default_sort, extract_keywords, format_size,
    index_stats, modified_text, page_info, path_filter_pattern, plan_filters, plan_query, preview_text,
    results_to_csv, sort_order, suggestion_cuts_ok, suggestion_prefix_ok, suggestion_term,
    ExportRow, FacetDoc, PlanError, QueryPlan, ResultKey, SearchMode, SearchQuery, SortBy,
    SuggestionHit,
};

/// The size formatting of the search engine, with floating point.
fn float_size(bytes: u64) -> String {
    const UNITS: &[&str] = &["B", "KB", "MB", "GB", "TB"];
    let mut size = bytes as f64;
    let mut unit_idx = 0;
    while size >= 1024.0 && unit_idx < UNITS.len() - 1 {
        size /= 1024.0;
        unit_idx += 1;
    }
    format!("{:.1} {}", size, UNITS[unit_idx])
}

fn query(q: &str) -> SearchQuery {
    SearchQuery {
        q: q.to_string(),
        limit: default_limit(),
        offset: 0,
        file_type: None,
        path_filter: None,
        mode: default_mode(),
        sort: default_sort(),
        date_from: None,
        date_to: None,
        size_min: None,
        size_max: None,
        highlight: default_highlight(),
        snippet_window: default_snippet_window(),
    }
}

#[test]
fn search_defaults() {
    assert_eq!(default_limit(), 20);
    assert_eq!(default_mode(), SearchMode::Fulltext);
    assert_eq!(default_sort(), SortBy::Relevance);
    assert!(default_highlight());
    assert_eq!(default_snippet_window(), 80);
}

#[test]
fn format_size_exact_values() {
    assert_eq!(format_size(0), "0.0 B");
    assert_eq!(format_size(1023), "1023.0 B");
    assert_eq!(format_size(1024), "1.0 KB");
    assert_eq!(format_size(1536), "1.5 KB");
    assert_eq!(format_size(1048576), "1.0 MB");
    assert_eq!(format_size(52428800), "50.0 MB");
    assert_eq!(format_size(1099511627776), "1.0 TB");
    assert_eq!(format_size(1125899906842624), "1024.0 TB");
}

#[test]
fn format_size_agrees_with_floating_point() {
    let mut values: Vec<u64> = vec![
        1, 999, 1000, 1025, 1126, 1127, 1177, 1178, 1280, 1331, 1332, 3328, 3379, 10240, 10291,
        2621440, 2673868, 2726297, 5368709120, 123456789, 987654321012, 4398046511104,
        (1u64 << 53) - 1,
    ];
    for k in 0..40u64 {
        values.push(1024 + 51 * k + k * k);
        values.push(1048576 * (k + 1) + 52428 * k);
    }
    for v in values {
        assert_eq!(format_size(v), float_size(v), "size {}", v);
    }
}

#[test]
fn modified_text_of_times() {
    assert_eq!(modified_text(0), "");
    assert_eq!(modified_text(-5), "");
    assert_eq!(modified_text(1), "1970-01-01 00:00:01");
    assert_eq!(modified_text(1700000000), "2023-11-14 22:13:20");
    assert_eq!(modified_text(951782400), "2000-02-29 00:00:00");
    assert_eq!(modified_text(253402300799), "9999-12-31 23:59:59");
    assert_eq!(modified_text(i64::MAX), "");
}

#[test]
fn plan_query_modes() {
    match plan_query("rust verus", SearchMode::Fulltext) {
        Ok(QueryPlan::Parse(t)) => assert_eq!(t, "rust verus"),
        other => panic!("{:?}", other),
    }
    match plan_query("abc*", SearchMode::Wildcard) {
        Ok(QueryPlan::Parse(t)) => assert_eq!(t, "abc*"),
        other => panic!("{:?}", other),
    }
    match plan_query("  quick  brown fox ", SearchMode::Phrase) {
        Ok(QueryPlan::Phrase(terms)) => assert_eq!(terms, vec!["quick", "brown", "fox"]),
        other => panic!("{:?}", other),
    }
    match plan_query("   ", SearchMode::Phrase) {
        Err(e) => assert_eq!(e, PlanError::EmptyPhrase),
        other => panic!("{:?}", other),
    }
    match plan_query("/ab+c/", SearchMode::Regex) {
        Ok(QueryPlan::Regex(p)) => assert_eq!(p, "ab+c"),
        other => panic!("{:?}", other),
    }
    match plan_query("ab+c", SearchMode::Regex) {
        Ok(QueryPlan::Regex(p)) => assert_eq!(p, "ab+c"),
        other => panic!("{:?}", other),
    }
    match plan_query("//", SearchMode::Regex) {
        Ok(QueryPlan::Regex(p)) => assert_eq!(p, ""),
        other => panic!("{:?}", other),
    }
}

#[test]
fn plan_filters_of_a_query() {
    let mut q = query("x");
    q.file_type = Some("pdf".to_string());
    q.path_filter = Some("my docs:x".to_string());
    q.date_from = Some(5);
    q.size_max = Some(10);
    let f = plan_filters(&q);
    assert_eq!(f.extension.as_deref(), Some("pdf"));
    assert_eq!(f.path.as_deref(), Some(".*my docs:x.*"));
    assert_eq!(f.modified, Some((5, i64::MAX)));
    assert_eq!(f.size, Some((0, 10)));

    let mut e = query("x");
    e.file_type = Some(String::new());
    e.path_filter = Some(String::new());
    let g = plan_filters(&e);
    assert!(g.extension.is_none());
    assert!(g.path.is_none());
    assert!(g.modified.is_none());
    assert!(g.size.is_none());
}

#[test]
fn path_filter_patterns_escape_regex_characters() {
    assert_eq!(path_filter_pattern("docs"), ".*docs.*");
    assert_eq!(path_filter_pattern("a.b (1)"), ".*a\\.b \\(1\\).*");
    assert_eq!(path_filter_pattern("C:\\x-y"), ".*C:\\\\x\\-y.*");
    assert_eq!(path_filter_pattern(""), ".*.*");
}

#[test]
fn page_numbers() {
    let p = page_info(45, 20, 40);
    assert_eq!((p.page, p.total_pages), (3, 3));
    let q = page_info(40, 20, 0);
    assert_eq!((q.page, q.total_pages), (1, 2));
    let z = page_info(0, 20, 0);
    assert_eq!((z.page, z.total_pages), (1, 0));
    let none = page_info(99, 0, 7);
    assert_eq!((none.page, none.total_pages), (1, 1));
}

#[test]
fn keywords_of_queries() {
    assert_eq!(extract_keywords("hello AND world"), vec!["hello", "world"]);
    assert_eq!(
        extract_keywords("rust AND (verus OR \"proof\") name:foo a* x\\y"),
        vec!["rust", "verus", "proof", "xy"]
    );
    assert_eq!(extract_keywords("a b c"), Vec::<String>::new());
    assert_eq!(extract_keywords("中文"), vec!["中文"]);
}

#[test]
fn sort_orders_are_stable() {
    let keys = vec![
        ResultKey { modified_ts: 10, size_bytes: 5, file_name: "b".to_string() },
        ResultKey { modified_ts: 30, size_bytes: 7, file_name: "a".to_string() },
        ResultKey { modified_ts: 20, size_bytes: 7, file_name: "c".to_string() },
        ResultKey { modified_ts: 30, size_bytes: 1, file_name: "a".to_string() },
    ];
    assert_eq!(sort_order(&keys, SortBy::Date), vec![1, 3, 2, 0]);
    assert_eq!(sort_order(&keys, SortBy::Size), vec![1, 2, 0, 3]);
    assert_eq!(sort_order(&keys, SortBy::Name), vec![1, 3, 0, 2]);
    assert_eq!(sort_order(&Vec::new(), SortBy::Name), Vec::<usize>::new());
}

fn count_of(v: &[(String, u64)], k: &str) -> Option<u64> {
    v.iter().find(|(x, _)| x == k).map(|(_, c)| *c)
}

#[test]
fn facets_count_types_and_ages() {
    let now = 1_000_000_000;
    let docs = vec![
        Some(FacetDoc { extension: Some("pdf".to_string()), modified: Some(now - 10) }),
        Some(FacetDoc { extension: Some("txt".to_string()), modified: Some(now - 700_000) }),
        None,
        Some(FacetDoc { extension: Some("pdf".to_string()), modified: None }),
        Some(FacetDoc { extension: None, modified: Some(now - 40_000_000) }),
    ];
    let f = build_facets(&docs, now);
    assert_eq!(f.file_types.len(), 2);
    assert_eq!(count_of(&f.file_types, "pdf"), Some(2));
    assert_eq!(count_of(&f.file_types, "txt"), Some(1));
    assert_eq!(f.date_ranges.len(), 3);
    assert_eq!(count_of(&f.date_ranges, "今天"), Some(1));
    assert_eq!(count_of(&f.date_ranges, "本月"), Some(1));
    assert_eq!(count_of(&f.date_ranges, "更早"), Some(1));
}

#[test]
fn facets_read_at_most_five_hundred_results() {
    let docs: Vec<Option<FacetDoc>> = (0..600)
        .map(|_| Some(FacetDoc { extension: Some("md".to_string()), modified: None }))
        .collect();
    let f = build_facets(&docs, 0);
    assert_eq!(count_of(&f.file_types, "md"), Some(500));
    assert!(f.date_ranges.is_empty());
}

#[test]
fn date_buckets() {
    assert_eq!(date_bucket(100, 0), "今天");
    assert_eq!(date_bucket(86400, 0), "本周");
    assert_eq!(date_bucket(604800, 0), "本月");
    assert_eq!(date_bucket(2592000, 0), "三个月内");
    assert_eq!(date_bucket(7776000, 0), "一年内");
    assert_eq!(date_bucket(31536000, 0), "更早");
    assert_eq!(date_bucket(0, 100), "今天");
}

#[test]
fn index_statistics() {
    let s = index_stats(7, &vec![100, 200, 300]);
    assert_eq!(s.total_docs, 7);
    assert_eq!(s.index_size_bytes, 600);
    assert!(s.last_indexed.is_none());
    assert_eq!(index_stats(0, &Vec::new()).index_size_bytes, 0);
}

#[test]
fn previews() {
    assert_eq!(preview_text("short", 10), "short");
    assert_eq!(preview_text("exactly", 7), "exactly");
    assert_eq!(preview_text("abcdefgh", 3), "abc...");
    assert_eq!(preview_text("你好世界", 2), "你好...");
    assert_eq!(preview_text("你好世界", 4), "你好世界");
}

#[test]
fn previews_are_at_most_three_characters_over() {
    let text = "abc 字".repeat(50);
    for max in [0usize, 1, 7, 100, 199, 200, 500] {
        let p = preview_text(&text, max);
        assert!(p.chars().count() <= max + 3);
    }
}

#[test]
fn suggestion_terms() {
    assert_eq!(suggestion_term("hello world", "he"), Some("hello world".to_string()));
    assert_eq!(suggestion_term("nothing", "he"), None);
    assert_eq!(
        suggestion_term("xxxxxxxxxxxxhello\nworld", "he"),
        Some("...xxxxxxxxxxhello world".to_string())
    );
    let long = format!("he{}", "z".repeat(60));
    assert_eq!(suggestion_term(&long, "he"), Some(format!("he{}", "z".repeat(40))));
    assert!(suggestion_prefix_ok("he"));
    assert!(!suggestion_prefix_ok("h"));
    assert!(suggestion_prefix_ok("中"));
    assert!(suggestion_cuts_ok("hello world", "he"));
    assert!(!suggestion_cuts_ok("中aaaaaaaaahe", "he"));
}

#[test]
fn suggestions_drop_adjacent_duplicates_and_keep_limit() {
    let hits = vec![
        SuggestionHit { content: "hello world".to_string(), count: 5 },
        SuggestionHit { content: "hello world".to_string(), count: 4 },
        SuggestionHit { content: "say hello again".to_string(), count: 3 },
        SuggestionHit { content: "nothing".to_string(), count: 1 },
        SuggestionHit { content: "hello world".to_string(), count: 2 },
    ];
    let all = collect_suggestions("he", &hits, 10);
    let got: Vec<(String, u64)> = all.into_iter().map(|s| (s.term, s.count)).collect();
    assert_eq!(
        got,
        vec![
            ("hello world".to_string(), 5),
            ("say hello again".to_string(), 3),
            ("hello world".to_string(), 2),
        ]
    );
    let two = collect_suggestions("he", &hits, 2);
    assert_eq!(two.len(), 2);
    assert_eq!(two[1].term, "say hello again");
}

#[test]
fn csv_export() {
    let rows = vec![
        ExportRow {
            file_path: "C:/a \"b\".txt".to_string(),
            file_name: "a \"b\".txt".to_string(),
            file_ext: "txt".to_string(),
            score_text: format!("{:.2}", 1.23456f32),
            modified: "2024-01-01 00:00:00".to_string(),
            size_formatted: "1.0 KB".to_string(),
        },
    ];
    assert_eq!(
        results_to_csv(&rows),
        "文件路径,文件名,类型,相关度,修改时间,大小\n\"C:/a \"\"b\"\".txt\",\"a \"\"b\"\".txt\",\"txt\",1.23,\"2024-01-01 00:00:00\",\"1.0 KB\"\n"
    );
    assert_eq!(results_to_csv(&Vec::new()), "文件路径,文件名,类型,相关度,修改时间,大小\n");
}
