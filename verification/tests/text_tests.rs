use anywords::text::{
    contains_str, decimal_string, ends_with_str, eq_ignore_case, is_blank, replace_str,
    split_words, starts_with_str, str_less, trim_str,
};

#[test]
fn trimming_and_blanks() {
    assert_eq!(trim_str("\u{3000} a b \n"), "a b");
    assert!(is_blank(" \t\n"));
    assert!(!is_blank(" x "));
}

#[test]
fn matching() {
    assert!(contains_str("hello", "ell"));
    assert!(contains_str("hello", ""));
    assert!(!contains_str("hello", "elo"));
    assert!(starts_with_str("hello", "he"));
    assert!(ends_with_str("hello", "lo"));
    assert!(!ends_with_str("lo", "hello"));
    assert!(eq_ignore_case("C:/Docs", "c:/DOCS"));
    assert!(!eq_ignore_case("É", "é"));
}

#[test]
fn replacing_scans_left_to_right() {
    assert_eq!(replace_str("aaa", "aa", "b"), "ba");
    assert_eq!(replace_str("a\"b", "\"", "\"\""), "a\"\"b");
    assert_eq!(replace_str("   ", "  ", " "), "  ");
}

#[test]
fn words_and_numbers() {
    assert_eq!(split_words("  a\tb\n\nc  "), vec!["a", "b", "c"]);
    assert!(split_words(" ").is_empty());
    assert_eq!(decimal_string(0), "0");
    assert_eq!(decimal_string(18446744073709551615), "18446744073709551615");
}

#[test]
fn ordering_by_code_points() {
    assert!(str_less("a", "b"));
    assert!(str_less("ab", "abc"));
    assert!(!str_less("b", "ab"));
    assert!(!str_less("x", "x"));
    assert!(str_less("Z", "a"));
}
