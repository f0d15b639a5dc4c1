use anywords::snippet::{
    build_highlight_snippet, checked_highlight_snippet, highlight_parts, result_text,
    truncate_snippet,
};

fn strings(v: &[&str]) -> Vec<String> {
    v.iter().map(|s| s.to_string()).collect()
}

#[test]
fn truncate_keeps_short_text_without_controls() {
    assert_eq!(truncate_snippet("hello\u{1}world\n\ttab", 200), "helloworld\n\ttab");
}

#[test]
fn truncate_cuts_at_last_space_past_half() {
    assert_eq!(truncate_snippet("aaaa bbbb cccc dddd", 12), "aaaa bbbb...");
}

#[test]
fn truncate_cuts_at_limit_without_break() {
    assert_eq!(truncate_snippet("abcdefghij klmnop", 8), "abcdefgh...");
}

#[test]
fn truncate_ignores_break_in_first_half() {
    assert_eq!(truncate_snippet("ab cdefghij", 8), "ab cdefg...");
}

#[test]
fn truncate_cuts_at_chinese_comma() {
    assert_eq!(truncate_snippet("你好世界，和平安康", 6), "你好世界...");
    assert_eq!(truncate_snippet("你好，世界和平", 5), "你好，世界...");
}

#[test]
fn truncate_counts_characters_not_bytes() {
    assert_eq!(truncate_snippet("你好世界", 4), "你好世界");
    assert_eq!(truncate_snippet("你好世界", 3), "你好世...");
}

#[test]
fn truncate_exact_length_is_kept() {
    assert_eq!(truncate_snippet("abcd", 4), "abcd");
}

#[test]
fn plain_snippet_is_at_most_three_characters_over() {
    let text = "word 字".repeat(100);
    for max in [10usize, 37, 100, 200] {
        let s = truncate_snippet(&text, max);
        assert!(s.chars().count() <= max + 3);
        assert!(s.ends_with("..."));
    }
}

#[test]
fn highlight_context_and_mark() {
    let content = "The quick brown fox jumps over the lazy dog";
    let (snippet, marks) = build_highlight_snippet(content, &strings(&["fox"]), 10);
    assert_eq!(snippet, "...ick brown fox jumps ");
    assert_eq!(marks, vec!["The quick brown [[fox]] jumps over the lazy dog".to_string()]);
}

#[test]
fn highlight_ignores_case() {
    let content = "The quick brown fox jumps over the lazy dog";
    let (snippet, marks) = build_highlight_snippet(content, &strings(&["QUICK"]), 80);
    assert_eq!(snippet, content);
    assert_eq!(marks, vec!["The [[quick]] brown fox jumps over the lazy dog".to_string()]);
}

#[test]
fn highlight_uses_earliest_match_and_keyword_order() {
    let content = "The quick brown fox jumps over the lazy dog";
    let (snippet, marks) = build_highlight_snippet(content, &strings(&["dog", "quick"]), 3);
    assert_eq!(snippet, "...he qui");
    assert_eq!(
        marks,
        vec![
            "...jumps over the lazy [[dog]]".to_string(),
            "The [[quick]] brown fox jumps over the lazy dog".to_string(),
        ]
    );
}

#[test]
fn highlight_without_match_starts_at_the_beginning() {
    let (snippet, marks) = build_highlight_snippet("alpha beta gamma", &strings(&["zebra"]), 5);
    assert_eq!(snippet, "alpha");
    assert!(marks.is_empty());
}

#[test]
fn highlight_marks_at_most_five() {
    let content = "aa bb cc dd ee ff gg";
    let (_, marks) =
        build_highlight_snippet(content, &strings(&["aa", "bb", "cc", "dd", "ee", "ff", "gg"]), 4);
    assert_eq!(marks.len(), 5);
    assert_eq!(marks[4], "aa bb cc dd [[ee]] ff gg");
}

#[test]
fn highlight_blanks_control_characters() {
    let (snippet, marks) = build_highlight_snippet("a\u{7}bc\u{1}d", &strings(&["bc"]), 10);
    assert_eq!(snippet, "a bc d");
    assert_eq!(marks, vec!["a [[bc]] d".to_string()]);
}

#[test]
fn highlight_long_context_has_ellipses() {
    let content = format!("{}needle{}", "x".repeat(30), "y".repeat(60));
    let (_, marks) = build_highlight_snippet(&content, &strings(&["needle"]), 5);
    assert_eq!(marks, vec![format!("...{}[[needle]]{}...", "x".repeat(20), "y".repeat(40))]);
}

#[test]
fn highlight_offsets_come_from_the_lowercase_text() {
    // The Kelvin sign (3 bytes) lowercases to `k` (1 byte), so the match
    // found in the lowercase text lies 4 bytes earlier in the text itself.
    let content = "\u{212A}\u{212A} hello world";
    let (snippet, marks) = build_highlight_snippet(content, &strings(&["world"]), 80);
    assert_eq!(snippet, content);
    assert_eq!(marks, vec!["\u{212A}\u{212A} he[[llo w]]orld".to_string()]);
}

#[test]
fn checked_highlight_refuses_what_would_panic() {
    // `İ` (2 bytes) lowercases to 3 bytes: the match lies past the text's end.
    assert!(checked_highlight_snippet("İİİİ abc", &strings(&["abc"]), 80).is_none());
    let ok = checked_highlight_snippet("plain abc", &strings(&["abc"]), 80);
    assert_eq!(ok, Some(("plain abc".to_string(), vec!["plain [[abc]]".to_string()])));
}

#[test]
fn highlight_parts_with_given_lowercase() {
    let (snippet, marks) = highlight_parts(
        "Hello World",
        "hello world",
        &strings(&["World"]),
        &strings(&["world"]),
        2,
    );
    assert_eq!(snippet, "...o Wo");
    assert_eq!(marks, vec!["Hello [[World]]".to_string()]);
}

#[test]
fn result_text_plain_and_highlighted() {
    let plain = result_text("some text", &strings(&["text"]), false, 80, 0, 1024).unwrap();
    assert_eq!(plain.snippet, "some text");
    assert!(plain.highlights.is_empty());
    assert_eq!(plain.modified, "");
    assert_eq!(plain.size_formatted, "1.0 KB");

    let lit = result_text("some text", &strings(&["text"]), true, 80, 86400, 10).unwrap();
    assert_eq!(lit.snippet, "some text");
    assert_eq!(lit.highlights, vec!["some [[text]]".to_string()]);
    assert_eq!(lit.modified, "1970-01-02 00:00:00");
    assert_eq!(lit.size_formatted, "10.0 B");

    let none_kw = result_text("some text", &Vec::new(), true, 80, 0, 0).unwrap();
    assert_eq!(none_kw.snippet, "some text");
    assert!(none_kw.highlights.is_empty());
}

#[test]
fn result_text_cuts_long_text_by_characters() {
    let long = "你".repeat(300);
    let r = result_text(&long, &Vec::new(), false, 80, 0, 0).unwrap();
    assert_eq!(r.snippet, format!("{}...", "你".repeat(200)));
    assert!(r.highlights.is_empty());
}
