//! Search requests and how they are turned into index queries, filters,
//! pages, keywords and result orderings.
use vstd::prelude::*;
use crate::text::{
    char_index_at, decimal, digit, first_match, on_boundary, push_char, push_decimal, push_str,
    trim, find_chars, lemma_byte_len_push, byte_len, byte_len_at_most, chars_of, contains,
    contains_str, ends_with, lex_lt, lex_less, lemma_lex_asymmetric, lemma_lex_irreflexive,
    lemma_lex_total, lemma_lex_transitive, owned, replace, replace_str, split_words, starts_with,
    string_from_range, words, words_state, is_ws, matches_at,
};

verus! {

/// Sort mode for search results.
#[derive(Debug, Clone, Copy, PartialEq, Eq, Structural)]
pub enum SortBy {
    Relevance,
    Date,
    Size,
    Name,
}

/// Search mode.
#[derive(Debug, Clone, Copy, PartialEq, Eq, Structural)]
pub enum SearchMode {
    /// Standard tokenized full-text search.
    Fulltext,
    /// Exact phrase matching.
    Phrase,
    /// Regex pattern matching.
    Regex,
    /// Wildcard prefix search.
    Wildcard,
}

/// A search request.
#[derive(Debug)]
pub struct SearchQuery {
    /// The query text.
    pub q: String,
    /// Largest number of results returned.
    pub limit: usize,
    /// Number of results skipped.
    pub offset: usize,
    /// Only files with this extension.
    pub file_type: Option<String>,
    /// Only files whose path matches this text.
    pub path_filter: Option<String>,
    pub mode: SearchMode,
    pub sort: SortBy,
    /// Modification time range, in unix seconds.
    pub date_from: Option<i64>,
    pub date_to: Option<i64>,
    /// File size range, in bytes.
    pub size_min: Option<u64>,
    pub size_max: Option<u64>,
    /// Whether snippets highlight the keywords.
    pub highlight: bool,
    /// Bytes of context around a keyword match.
    pub snippet_window: usize,
}

pub fn default_limit() -> (r: usize)
    ensures
        r == 20,
{
    20
}

pub fn default_mode() -> (r: SearchMode)
    ensures
        r == SearchMode::Fulltext,
{
    SearchMode::Fulltext
}

pub fn default_sort() -> (r: SortBy)
    ensures
        r == SortBy::Relevance,
{
    SortBy::Relevance
}

pub fn default_highlight() -> (r: bool)
    ensures
        r,
{
    true
}

pub fn default_snippet_window() -> (r: usize)
    ensures
        r == 80,
{
    80
}

// ───────────────────────── query plans ─────────────────────────

/// The index query a search runs.
#[derive(Debug)]
pub enum QueryPlan {
    /// Parse the text with the query parser over name and content.
    Parse(String),
    /// Match these terms, in order, as a phrase in the content.
    Phrase(Vec<String>),
    /// Match this regular expression against content terms.
    Regex(String),
}

/// Why a search request cannot be run.
#[derive(Debug, PartialEq, Eq, Structural, Clone, Copy)]
pub enum PlanError {
    /// A phrase search without any term.
    EmptyPhrase,
}

/// The regex of a regex search: the query without the slashes that
/// enclose it, if it is enclosed in slashes.
pub open spec fn regex_pattern(q: Seq<char>) -> Seq<char> {
    if starts_with(q, seq!['/']) && ends_with(q, seq!['/']) {
        q.subrange(1, q.len() - 1)
    } else {
        q
    }
}

/// Builds the index query for a search mode.
pub fn plan_query(q: &str, mode: SearchMode) -> (r: Result<QueryPlan, PlanError>)
    requires
        mode == SearchMode::Regex ==> q@ != seq!['/'],
    ensures
        mode == SearchMode::Fulltext || mode == SearchMode::Wildcard ==> (r matches Ok(
            QueryPlan::Parse(t),
        ) && t@ == q@),
        mode == SearchMode::Phrase ==> match r {
            Ok(QueryPlan::Phrase(terms)) => words(q@).len() > 0 && terms.deep_view() == words(q@),
            Err(e) => words(q@).len() == 0 && e == PlanError::EmptyPhrase,
            _ => false,
        },
        mode == SearchMode::Regex ==> (r matches Ok(QueryPlan::Regex(p)) && p@
            == regex_pattern(q@)),
{
    match mode {
        SearchMode::Fulltext | SearchMode::Wildcard => Ok(QueryPlan::Parse(owned(q))),
        SearchMode::Phrase => {
            let terms = split_words(q);
            if terms.len() == 0 {
                Err(PlanError::EmptyPhrase)
            } else {
                Ok(QueryPlan::Phrase(terms))
            }
        },
        SearchMode::Regex => {
            let v = chars_of(q);
            let n = v.len();
            if n > 0 && v[0] == '/' && v[n - 1] == '/' {
                assert(starts_with(q@, seq!['/'])) by {
                    assert(q@.subrange(0, 1) =~= seq!['/']);
                }
                assert(ends_with(q@, seq!['/'])) by {
                    assert(q@.subrange(n - 1, n as int) =~= seq!['/']);
                }
                if n == 1 {
                    assert(q@ =~= seq!['/']);
                }
                Ok(QueryPlan::Regex(string_from_range(&v, 1, n - 1)))
            } else {
                assert(!(starts_with(q@, seq!['/']) && ends_with(q@, seq!['/']))) by {
                    if starts_with(q@, seq!['/']) && ends_with(q@, seq!['/']) {
                        assert(q@.subrange(0, 1)[0] == '/');
                        assert(q@.subrange(n - 1, n as int)[0] == '/');
                    }
                }
                Ok(QueryPlan::Regex(owned(q)))
            }
        },
    }
}

/// The filters a search applies on top of its query.
#[derive(Debug)]
pub struct FilterPlan {
    /// Extension that must match exactly.
    pub extension: Option<String>,
    /// Pattern on the whole path that matches every path holding the path
    /// filter as a substring: the filter with its regex meta characters
    /// escaped, between `.*` and `.*`.
    pub path: Option<String>,
    /// Half-open modification time range.
    pub modified: Option<(i64, i64)>,
    /// Half-open size range.
    pub size: Option<(u64, u64)>,
}

/// The characters that have a meaning of their own in a regex pattern.
pub open spec fn regex_meta(c: char) -> bool {
    c == '\\' || c == '.' || c == '+' || c == '*' || c == '?' || c == '(' || c == ')' || c == '|'
        || c == '[' || c == ']' || c == '{' || c == '}' || c == '^' || c == '$' || c == '#' || c
        == '&' || c == '-' || c == '~'
}

/// `p` as a regex that matches exactly `p`: each meta character behind a
/// backslash.
pub open spec fn regex_literal(p: Seq<char>) -> Seq<char>
    decreases p.len(),
{
    if p.len() == 0 {
        seq![]
    } else {
        regex_literal(p.drop_last()) + if regex_meta(p.last()) {
            seq!['\\', p.last()]
        } else {
            seq![p.last()]
        }
    }
}

/// The pattern of a path filter: any path that holds `p`.
pub open spec fn path_pattern(p: Seq<char>) -> Seq<char> {
    seq!['.', '*'] + regex_literal(p) + seq!['.', '*']
}

/// An operator of the pattern language of path filters: a character that
/// stands for itself only when escaped by a backslash (the meta characters
/// of the regex syntax).
pub open spec fn pattern_operator(c: char) -> bool {
    ||| c == '\\' || c == '.' || c == '+' || c == '*' || c == '?'
    ||| c == '(' || c == ')' || c == '|' || c == '[' || c == ']' || c == '{' || c == '}'
    ||| c == '^' || c == '$' || c == '#' || c == '&' || c == '-' || c == '~'
}

/// The text a pattern made only of literals matches, read from the left: a
/// backslash and an operator stand for that operator, any other character
/// that is no operator for itself. Nothing where the pattern holds an
/// operator that is not escaped, or a backslash that escapes nothing or a
/// character that is no operator.
pub open spec fn literal_of(s: Seq<char>) -> Option<Seq<char>>
    decreases s.len(),
{
    if s.len() == 0 {
        Some(seq![])
    } else if s[0] == '\\' {
        if s.len() >= 2 && pattern_operator(s[1]) {
            match literal_of(s.skip(2)) {
                Some(r) => Some(seq![s[1]] + r),
                None => None,
            }
        } else {
            None
        }
    } else if pattern_operator(s[0]) {
        None
    } else {
        match literal_of(s.skip(1)) {
            Some(r) => Some(seq![s[0]] + r),
            None => None,
        }
    }
}

proof fn lemma_literal_of_escaped(p: Seq<char>, rest: Seq<char>)
    ensures
        literal_of(regex_literal(p) + rest) == match literal_of(rest) {
            Some(r) => Some(p + r),
            None => None,
        },
    decreases p.len(),
{
    if p.len() == 0 {
        assert(regex_literal(p) + rest =~= rest);
        if let Some(r) = literal_of(rest) {
            assert(p + r =~= r);
        }
    } else {
        let q = p.drop_last();
        let c = p.last();
        let atom = if regex_meta(c) {
            seq!['\\', c]
        } else {
            seq![c]
        };
        let tail = atom + rest;
        assert(regex_literal(p) + rest =~= regex_literal(q) + tail);
        lemma_literal_of_escaped(q, tail);
        if regex_meta(c) {
            assert(tail[0] == '\\' && tail[1] == c);
            assert(tail.skip(2) =~= rest);
        } else {
            assert(tail[0] == c);
            assert(tail.skip(1) =~= rest);
        }
        if let Some(r) = literal_of(rest) {
            assert(literal_of(tail) == Some(seq![c] + r));
            assert(q + (seq![c] + r) =~= p + r);
        }
    }
}

/// A path filter matches the paths that hold it: its pattern is `.*`, then
/// a pattern of literals that matches exactly the filter text, then `.*`.
pub proof fn law_path_pattern_is_substring_match(p: Seq<char>)
    ensures
        exists|lit: Seq<char>|
            path_pattern(p) == seq!['.', '*'] + lit + seq!['.', '*'] && #[trigger] literal_of(lit)
                == Some(p),
{
    lemma_literal_of_escaped(p, seq![]);
    assert(regex_literal(p) + seq![] =~= regex_literal(p));
    assert(p + seq![] =~= p);
    assert(literal_of(regex_literal(p)) == Some(p));
}

fn is_regex_meta(c: char) -> (b: bool)
    ensures
        b == regex_meta(c),
{
    c == '\\' || c == '.' || c == '+' || c == '*' || c == '?' || c == '(' || c == ')' || c == '|'
        || c == '[' || c == ']' || c == '{' || c == '}' || c == '^' || c == '$' || c == '#' || c
        == '&' || c == '-' || c == '~'
}

/// The pattern that matches every path holding `p` as a substring.
pub fn path_filter_pattern(p: &str) -> (r: String)
    ensures
        r@ == path_pattern(p@),
{
    let v = chars_of(p);
    let mut r = String::new();
    push_char(&mut r, '.');
    push_char(&mut r, '*');
    let mut i: usize = 0;
    while i < v.len()
        invariant
            i <= v@.len(),
            r@ == seq!['.', '*'] + regex_literal(v@.take(i as int)),
        decreases v@.len() - i,
    {
        let c = v[i];
        if is_regex_meta(c) {
            push_char(&mut r, '\\');
        }
        push_char(&mut r, c);
        assert(v@.take(i + 1).drop_last() =~= v@.take(i as int));
        i += 1;
    }
    assert(v@.take(i as int) =~= p@);
    push_char(&mut r, '.');
    push_char(&mut r, '*');
    r
}

/// The text of a filter that is set and not empty.
pub open spec fn given_text(o: Option<String>) -> Option<Seq<char>> {
    match o {
        Some(s) => if s@.len() > 0 {
            Some(s@)
        } else {
            None
        },
        None => None,
    }
}

fn some_text(o: &Option<String>) -> (r: Option<&String>)
    ensures
        match r {
            Some(s) => given_text(*o) == Some(s@),
            None => given_text(*o) is None,
        },
{
    match o {
        Some(s) => if s.as_str().is_empty() {
            None
        } else {
            Some(s)
        },
        None => None,
    }
}

/// Builds the filters of a search: extension and path when given and not
/// empty; a time range from `date_from` (default 0) to `date_to` (default
/// `i64::MAX`) when either is given; a size range from `size_min` (default
/// 0) to `size_max` (default `u64::MAX`) when either is given.
pub fn plan_filters(q: &SearchQuery) -> (f: FilterPlan)
    ensures
        match f.extension {
            Some(e) => given_text(q.file_type) == Some(e@),
            None => given_text(q.file_type) is None,
        },
        match f.path {
            Some(p) => given_text(q.path_filter) matches Some(t) && p@ == path_pattern(t),
            None => given_text(q.path_filter) is None,
        },
        f.modified == (if q.date_from is Some || q.date_to is Some {
            Some(
                (
                    match q.date_from {
                        Some(d) => d,
                        None => 0,
                    },
                    match q.date_to {
                        Some(d) => d,
                        None => i64::MAX,
                    },
                ),
            )
        } else {
            None
        }),
        f.size == (if q.size_min is Some || q.size_max is Some {
            Some(
                (
                    match q.size_min {
                        Some(d) => d,
                        None => 0,
                    },
                    match q.size_max {
                        Some(d) => d,
                        None => u64::MAX,
                    },
                ),
            )
        } else {
            None
        }),
{
    let extension = match some_text(&q.file_type) {
        Some(s) => Some(owned(s.as_str())),
        None => None,
    };
    let path = match some_text(&q.path_filter) {
        Some(s) => Some(path_filter_pattern(s.as_str())),
        None => None,
    };
    let modified = if q.date_from.is_some() || q.date_to.is_some() {
        let from = match q.date_from {
            Some(d) => d,
            None => 0,
        };
        let to = match q.date_to {
            Some(d) => d,
            None => i64::MAX,
        };
        Some((from, to))
    } else {
        None
    };
    let size = if q.size_min.is_some() || q.size_max.is_some() {
        let from = match q.size_min {
            Some(d) => d,
            None => 0,
        };
        let to = match q.size_max {
            Some(d) => d,
            None => u64::MAX,
        };
        Some((from, to))
    } else {
        None
    };
    FilterPlan { extension, path, modified, size }
}

// ───────────────────────── pages ─────────────────────────

/// Which page of results a request shows, and how many pages there are.
#[derive(Debug, PartialEq, Eq, Structural, Clone, Copy)]
pub struct PageInfo {
    pub page: usize,
    pub total_pages: usize,
}

/// `ceil(total / limit)` pages (saturated to `usize::MAX`), page
/// `offset / limit + 1`; one page when the limit is 0.
pub fn page_info(total: u64, limit: usize, offset: usize) -> (r: PageInfo)
    requires
        limit > 0 ==> offset / limit < usize::MAX,
    ensures
        limit == 0 ==> r.page == 1 && r.total_pages == 1,
        limit > 0 ==> r.page == offset / limit + 1,
        limit > 0 ==> r.total_pages == (if (total + limit - 1) / (limit as int) > usize::MAX {
            usize::MAX as int
        } else {
            (total + limit - 1) / (limit as int)
        }),
{
    if limit == 0 {
        return PageInfo { page: 1, total_pages: 1 };
    }
    let l = limit as u128;
    let pages = ((total as u128) + l - 1) / l;
    let total_pages = if pages > usize::MAX as u128 {
        usize::MAX
    } else {
        pages as usize
    };
    PageInfo { page: offset / limit + 1, total_pages }
}

// ───────────────────────── keywords ─────────────────────────

/// The query text with query operators, brackets, quotes, stars and
/// backslashes removed, the way keywords are read from it.
pub open spec fn keyword_text(q: Seq<char>) -> Seq<char> {
    let a = replace(q, " AND "@, " "@);
    let b = replace(a, " OR "@, " "@);
    let c = replace(b, " NOT "@, " "@);
    let d = replace(c, "("@, " "@);
    let e = replace(d, ")"@, " "@);
    let f = replace(e, "\""@, " "@);
    let g = replace(f, "*"@, " "@);
    let h = replace(g, "\\"@, ""@);
    replace(h, "  "@, " "@)
}

/// A word is a keyword when it has at least two bytes and no colon.
pub open spec fn is_keyword(w: Seq<char>) -> bool {
    byte_len(w) >= 2 && !starts_with(w, seq![':']) && !contains(w, seq![':'])
}

/// The keywords of a query, in order.
pub open spec fn keywords(q: Seq<char>) -> Seq<Seq<char>> {
    words(keyword_text(q)).filter(|w: Seq<char>| is_keyword(w))
}

/// Every keyword has at least two bytes and no colon.
pub proof fn law_keywords_are_clean(q: Seq<char>)
    ensures
        forall|i: int| 0 <= i < keywords(q).len() ==> is_keyword(#[trigger] keywords(q)[i]),
{
    let ws = words(keyword_text(q));
    assert forall|i: int| 0 <= i < keywords(q).len() implies is_keyword(#[trigger] keywords(q)[i]) by {
        ws.lemma_filter_pred(|w: Seq<char>| is_keyword(w), i);
    }
}

/// A word of ASCII letters and digits.
pub open spec fn plain_word(w: Seq<char>) -> bool {
    &&& w.len() > 0
    &&& forall|i: int|
        0 <= i < w.len() ==> ('a' <= #[trigger] w[i] <= 'z') || ('A' <= w[i] <= 'Z') || ('0' <= w[i]
            <= '9')
}

proof fn lemma_replace_absent(s: Seq<char>, pat: Seq<char>, rep: Seq<char>)
    requires
        pat.len() > 0,
        forall|i: int| !#[trigger] matches_at(s, i, pat),
    ensures
        replace(s, pat, rep) == s,
    decreases s.len(),
{
    if s.len() > 0 {
        let t = s.drop_first();
        assert forall|i: int| !#[trigger] matches_at(t, i, pat) by {
            if matches_at(t, i, pat) {
                assert(s.subrange(i + 1, i + 1 + pat.len()) =~= t.subrange(i, i + pat.len()));
                assert(matches_at(s, i + 1, pat));
            }
        }
        lemma_replace_absent(t, pat, rep);
        assert(seq![s[0]] + t =~= s);
    }
}

proof fn lemma_replace_once(a: Seq<char>, pat: Seq<char>, b: Seq<char>, rep: Seq<char>)
    requires
        pat.len() > 0,
        forall|i: int| 0 <= i < a.len() ==> !#[trigger] matches_at(a + pat + b, i, pat),
        forall|i: int| !#[trigger] matches_at(b, i, pat),
    ensures
        replace(a + pat + b, pat, rep) == a + rep + b,
    decreases a.len(),
{
    let s = a + pat + b;
    if a.len() == 0 {
        assert(s =~= pat + b);
        assert(s.subrange(0, pat.len() as int) =~= pat);
        assert(s.skip(pat.len() as int) =~= b);
        lemma_replace_absent(b, pat, rep);
        assert(a + rep + b =~= rep + b);
    } else {
        let t = a.drop_first();
        assert(s.drop_first() =~= t + pat + b);
        assert forall|i: int| 0 <= i < t.len() implies !#[trigger] matches_at(t + pat + b, i, pat) by {
            if matches_at(t + pat + b, i, pat) {
                assert(s.subrange(i + 1, i + 1 + pat.len()) =~= (t + pat + b).subrange(
                    i,
                    i + pat.len(),
                ));
                assert(matches_at(s, i + 1, pat));
            }
        }
        lemma_replace_once(t, pat, b, rep);
        assert(!matches_at(s, 0, pat));
        assert(seq![s[0]] + (t + rep + b) =~= a + rep + b);
    }
}

/// No character of `s` is a space.
pub open spec fn no_space(s: Seq<char>) -> bool {
    forall|i: int| 0 <= i < s.len() ==> #[trigger] s[i] != ' '
}

proof fn lemma_char_of_match(s: Seq<char>, i: int, q: Seq<char>, k: int)
    requires
        matches_at(s, i, q),
        0 <= k < q.len(),
    ensures
        s[i + k] == q[k],
{
    assert(s.subrange(i, i + q.len())[k] == s[i + k]);
}

/// In `a + p + b`, where the only spaces are the two ends of `p`, a pattern
/// that starts and ends with a space and differs from `p` in its second
/// character matches nowhere.
proof fn lemma_spaced_no_match(a: Seq<char>, p: Seq<char>, b: Seq<char>, q: Seq<char>)
    requires
        no_space(a),
        no_space(b),
        p.len() >= 1,
        p.len() != 2,
        p[0] == ' ',
        p[p.len() - 1] == ' ',
        forall|j: int| 0 < j < p.len() - 1 ==> #[trigger] p[j] != ' ',
        q.len() >= 2,
        q[0] == ' ',
        q[q.len() - 1] == ' ',
        p.len() >= 3 ==> q[1] != p[1],
    ensures
        forall|i: int| !#[trigger] matches_at(a + p + b, i, q),
{
    let s = a + p + b;
    assert forall|i: int| !#[trigger] matches_at(s, i, q) by {
        if matches_at(s, i, q) {
            lemma_char_of_match(s, i, q, 0);
            lemma_char_of_match(s, i, q, q.len() - 1);
            let e = i + q.len() - 1;
            assert(s[i] == ' ');
            assert(s[e] == ' ');
            assert(e < s.len());
            if i < a.len() {
                assert(s[i] == a[i]);
            } else if i >= a.len() + p.len() {
                assert(s[i] == b[i - a.len() - p.len()]);
            } else if i == a.len() {
                if e < a.len() + p.len() - 1 {
                    assert(s[e] == p[e - a.len()]);
                    assert(p[e - a.len()] != ' ');
                } else if e == a.len() + p.len() - 1 {
                    assert(p.len() >= 3);
                    lemma_char_of_match(s, i, q, 1);
                    assert(s[i + 1] == p[1]);
                } else {
                    assert(s[e] == b[e - a.len() - p.len()]);
                }
            } else if i < a.len() + p.len() - 1 {
                assert(s[i] == p[i - a.len()]);
                assert(p[i - a.len()] != ' ');
            } else {
                assert(e >= a.len() + p.len());
                assert(s[e] == b[e - a.len() - p.len()]);
            }
        }
    }
}

proof fn lemma_absent_first(s: Seq<char>, q: Seq<char>)
    requires
        q.len() >= 1,
        forall|i: int| 0 <= i < s.len() ==> #[trigger] s[i] != q[0],
    ensures
        forall|i: int| !#[trigger] matches_at(s, i, q),
{
    assert forall|i: int| !#[trigger] matches_at(s, i, q) by {
        if matches_at(s, i, q) {
            lemma_char_of_match(s, i, q, 0);
        }
    }
}

proof fn lemma_words_state_word(pre: Seq<char>, w: Seq<char>)
    requires
        forall|i: int| 0 <= i < w.len() ==> !is_ws(#[trigger] w[i]),
    ensures
        words_state(pre + w) == (words_state(pre).0, words_state(pre).1 + w),
    decreases w.len(),
{
    if w.len() == 0 {
        assert(pre + w =~= pre);
        assert(words_state(pre).1 + w =~= words_state(pre).1);
    } else {
        assert((pre + w).drop_last() =~= pre + w.drop_last());
        lemma_words_state_word(pre, w.drop_last());
        assert(!is_ws(w[w.len() - 1]));
        assert((words_state(pre).1 + w.drop_last()).push(w.last()) =~= words_state(pre).1 + w);
    }
}

/// The keyword text of two words around an operator is the two words with
/// one space between them.
proof fn lemma_keyword_text_operator(a: Seq<char>, b: Seq<char>, op: Seq<char>)
    requires
        plain_word(a),
        plain_word(b),
        op == " AND "@ || op == " OR "@ || op == " NOT "@,
    ensures
        keyword_text(a + op + b) == a + seq![' '] + b,
{
    reveal_strlit(" AND ");
    reveal_strlit(" OR ");
    reveal_strlit(" NOT ");
    reveal_strlit("(");
    reveal_strlit(")");
    reveal_strlit("\"");
    reveal_strlit("*");
    reveal_strlit("\\");
    reveal_strlit("  ");
    reveal_strlit(" ");
    reveal_strlit("");
    let sp = seq![' '];
    assert(" "@ =~= sp);
    assert(no_space(a));
    assert(no_space(b));
    assert(" NOT "@[1] != " AND "@[1] && " NOT "@[1] != " OR "@[1] && " OR "@[1] != " AND "@[1]);
    let s0 = a + op + b;
    let t = a + sp + b;
    // AND
    let s1 = replace(s0, " AND "@, " "@);
    if op == " AND "@ {
        assert forall|i: int| 0 <= i < a.len() implies !#[trigger] matches_at(a + op + b, i, op) by {
            if matches_at(a + op + b, i, op) {
                lemma_char_of_match(a + op + b, i, op, 0);
            }
        }
        lemma_absent_first(b, op);
        lemma_replace_once(a, op, b, " "@);
        assert(s1 == t);
    } else {
        lemma_spaced_no_match(a, op, b, " AND "@);
        lemma_replace_absent(s0, " AND "@, " "@);
    }
    // OR
    let s2 = replace(s1, " OR "@, " "@);
    if op == " OR "@ {
        assert forall|i: int| 0 <= i < a.len() implies !#[trigger] matches_at(a + op + b, i, op) by {
            if matches_at(a + op + b, i, op) {
                lemma_char_of_match(a + op + b, i, op, 0);
            }
        }
        lemma_absent_first(b, op);
        lemma_replace_once(a, op, b, " "@);
        assert(s2 == t);
    } else if op == " AND "@ {
        lemma_spaced_no_match(a, sp, b, " OR "@);
        lemma_replace_absent(t, " OR "@, " "@);
    } else {
        lemma_spaced_no_match(a, op, b, " OR "@);
        lemma_replace_absent(s0, " OR "@, " "@);
    }
    // NOT
    let s3 = replace(s2, " NOT "@, " "@);
    if op == " NOT "@ {
        assert(s2 == s0);
        assert forall|i: int| 0 <= i < a.len() implies !#[trigger] matches_at(a + op + b, i, op) by {
            if matches_at(a + op + b, i, op) {
                lemma_char_of_match(a + op + b, i, op, 0);
            }
        }
        lemma_absent_first(b, op);
        lemma_replace_once(a, op, b, " "@);
        assert(s3 == t);
    } else {
        assert(s2 == t);
        lemma_spaced_no_match(a, sp, b, " NOT "@);
        lemma_replace_absent(t, " NOT "@, " "@);
    }
    assert(s3 == t);
    assert forall|i: int| 0 <= i < t.len() implies ('a' <= #[trigger] t[i] <= 'z') || ('A' <= t[i] <= 'Z')
        || ('0' <= t[i] <= '9') || t[i] == ' ' by {
        if i < a.len() {
            assert(t[i] == a[i]);
        } else if i > a.len() {
            assert(t[i] == b[i - a.len() - 1]);
        }
    }
    lemma_absent_first(t, "("@);
    lemma_replace_absent(t, "("@, " "@);
    lemma_absent_first(t, ")"@);
    lemma_replace_absent(t, ")"@, " "@);
    lemma_absent_first(t, "\""@);
    lemma_replace_absent(t, "\""@, " "@);
    lemma_absent_first(t, "*"@);
    lemma_replace_absent(t, "*"@, " "@);
    lemma_absent_first(t, "\\"@);
    lemma_replace_absent(t, "\\"@, ""@);
    lemma_spaced_no_match(a, sp, b, "  "@);
    lemma_replace_absent(t, "  "@, " "@);
}

/// An operator between two words is no keyword: the keywords of `a AND b`,
/// `a OR b` and `a NOT b` are `a` and `b`, for any words `a` and `b` of two
/// or more ASCII letters and digits.
pub proof fn law_operators_are_not_keywords(a: Seq<char>, b: Seq<char>)
    requires
        plain_word(a),
        plain_word(b),
        a.len() >= 2,
        b.len() >= 2,
    ensures
        keywords(a + " AND "@ + b) == seq![a, b],
        keywords(a + " OR "@ + b) == seq![a, b],
        keywords(a + " NOT "@ + b) == seq![a, b],
{
    let t = a + seq![' '] + b;
    lemma_keyword_text_operator(a, b, " AND "@);
    lemma_keyword_text_operator(a, b, " OR "@);
    lemma_keyword_text_operator(a, b, " NOT "@);
    assert forall|i: int| 0 <= i < a.len() implies !is_ws(#[trigger] a[i]) by {}
    assert forall|i: int| 0 <= i < b.len() implies !is_ws(#[trigger] b[i]) by {}
    lemma_words_state_word(seq![], a);
    assert(seq![] + a =~= a);
    assert((a + seq![' ']).drop_last() =~= a);
    assert(words_state(a + seq![' ']) == (seq![a], Seq::<char>::empty()));
    lemma_words_state_word(a + seq![' '], b);
    assert(words_state(t) == (seq![a], b));
    assert(words(t) == seq![a, b]);
    assert(is_keyword(a)) by {
        assert(byte_len(a) >= 2) by {
            reveal_with_fuel(byte_len, 3);
        }
        assert forall|i: int| !#[trigger] matches_at(a, i, seq![':']) by {
            if matches_at(a, i, seq![':']) {
                lemma_char_of_match(a, i, seq![':'], 0);
            }
        }
    }
    assert(is_keyword(b)) by {
        assert(byte_len(b) >= 2) by {
            reveal_with_fuel(byte_len, 3);
        }
        assert forall|i: int| !#[trigger] matches_at(b, i, seq![':']) by {
            if matches_at(b, i, seq![':']) {
                lemma_char_of_match(b, i, seq![':'], 0);
            }
        }
    }
    let f = |w: Seq<char>| is_keyword(w);
    reveal_with_fuel(Seq::filter, 3);
    assert(seq![a, b].drop_last() =~= seq![a]);
    assert(seq![a].drop_last() =~= Seq::<Seq<char>>::empty());
    assert(seq![a, b].filter(f) =~= seq![a, b]);
}

/// `c` does not occur in `s`.
pub open spec fn lacks(s: Seq<char>, c: char) -> bool {
    forall|i: int| 0 <= i < s.len() ==> #[trigger] s[i] != c
}

/// `w` holds none of the query syntax that keyword reading removes: no
/// bracket, double quote, star or backslash.
pub open spec fn syntax_free(w: Seq<char>) -> bool {
    &&& lacks(w, '(')
    &&& lacks(w, ')')
    &&& lacks(w, '"')
    &&& lacks(w, '*')
    &&& lacks(w, '\\')
}

proof fn lemma_replace_keeps_lacking(s: Seq<char>, pat: Seq<char>, rep: Seq<char>, c: char)
    requires
        lacks(s, c),
        lacks(rep, c),
    ensures
        lacks(replace(s, pat, rep), c),
    decreases s.len(),
{
    if pat.len() == 0 || s.len() == 0 {
    } else if matches_at(s, 0, pat) {
        let t = s.skip(pat.len() as int);
        assert forall|i: int| 0 <= i < t.len() implies #[trigger] t[i] != c by {
            assert(t[i] == s[i + pat.len()]);
        }
        lemma_replace_keeps_lacking(t, pat, rep, c);
        let r = replace(t, pat, rep);
        assert forall|i: int| 0 <= i < (rep + r).len() implies #[trigger] (rep + r)[i] != c by {
            if i >= rep.len() {
                assert((rep + r)[i] == r[i - rep.len()]);
            }
        }
    } else {
        let t = s.drop_first();
        assert forall|i: int| 0 <= i < t.len() implies #[trigger] t[i] != c by {
            assert(t[i] == s[i + 1]);
        }
        lemma_replace_keeps_lacking(t, pat, rep, c);
        let r = replace(t, pat, rep);
        assert(s[0] != c);
        assert forall|i: int| 0 <= i < (seq![s[0]] + r).len() implies #[trigger] (seq![s[0]] + r)[i]
            != c by {
            if i >= 1 {
                assert((seq![s[0]] + r)[i] == r[i - 1]);
            }
        }
    }
}

proof fn lemma_replace_removes(s: Seq<char>, c: char, rep: Seq<char>)
    requires
        lacks(rep, c),
    ensures
        lacks(replace(s, seq![c], rep), c),
    decreases s.len(),
{
    if s.len() > 0 {
        if matches_at(s, 0, seq![c]) {
            let t = s.skip(1);
            lemma_replace_removes(t, c, rep);
            let r = replace(t, seq![c], rep);
            assert forall|i: int| 0 <= i < (rep + r).len() implies #[trigger] (rep + r)[i] != c by {
                if i >= rep.len() {
                    assert((rep + r)[i] == r[i - rep.len()]);
                }
            }
        } else {
            let t = s.drop_first();
            lemma_replace_removes(t, c, rep);
            let r = replace(t, seq![c], rep);
            assert(s.subrange(0, 1) =~= seq![s[0]]);
            assert(s[0] != c);
            assert forall|i: int| 0 <= i < (seq![s[0]] + r).len() implies #[trigger] (seq![s[0]]
                + r)[i] != c by {
                if i >= 1 {
                    assert((seq![s[0]] + r)[i] == r[i - 1]);
                }
            }
        }
    }
}

proof fn lemma_words_lack(s: Seq<char>, c: char)
    requires
        lacks(s, c),
    ensures
        forall|k: int| 0 <= k < words_state(s).0.len() ==> lacks(#[trigger] words_state(s).0[k], c),
        lacks(words_state(s).1, c),
        forall|k: int| 0 <= k < words(s).len() ==> lacks(#[trigger] words(s)[k], c),
    decreases s.len(),
{
    if s.len() > 0 {
        let t = s.drop_last();
        assert forall|i: int| 0 <= i < t.len() implies #[trigger] t[i] != c by {
            assert(t[i] == s[i]);
        }
        lemma_words_lack(t, c);
        let cur = words_state(t).1;
        assert(s.last() == s[s.len() - 1]);
        assert forall|i: int| 0 <= i < cur.push(s.last()).len() implies #[trigger] cur.push(
            s.last(),
        )[i] != c by {
            if i < cur.len() {
                assert(cur.push(s.last())[i] == cur[i]);
            }
        }
    }
    let (done, cur) = words_state(s);
    assert forall|k: int| 0 <= k < words(s).len() implies lacks(#[trigger] words(s)[k], c) by {
        if k < done.len() {
            assert(words(s)[k] == done[k]);
        }
    }
}

/// The words of `ws` that are keywords.
pub open spec fn only_keywords(ws: Seq<Seq<char>>) -> Seq<Seq<char>> {
    ws.filter(|w: Seq<char>| is_keyword(w))
}

proof fn lemma_filter_keeps_syntax_free(ws: Seq<Seq<char>>)
    requires
        forall|k: int| 0 <= k < ws.len() ==> syntax_free(#[trigger] ws[k]),
    ensures
        forall|k: int|
            0 <= k < only_keywords(ws).len() ==> syntax_free(#[trigger] only_keywords(ws)[k]),
    decreases ws.len(),
{
    reveal(Seq::filter);
    if ws.len() > 0 {
        let t = ws.drop_last();
        assert forall|k: int| 0 <= k < t.len() implies syntax_free(#[trigger] t[k]) by {
            assert(t[k] == ws[k]);
        }
        lemma_filter_keeps_syntax_free(t);
        let f = only_keywords(t);
        let last = ws[ws.len() - 1];
        assert(ws.last() == last);
        assert(syntax_free(last));
        if is_keyword(last) {
            assert(only_keywords(ws) == f.push(last));
            assert forall|k: int| 0 <= k < f.push(last).len() implies syntax_free(
                #[trigger] f.push(last)[k],
            ) by {
                if k < f.len() {
                    assert(f.push(last)[k] == f[k]);
                }
            }
        } else {
            assert(only_keywords(ws) == f);
        }
    }
}

/// No keyword holds query syntax: brackets, double quotes, stars and
/// backslashes are taken out of every query before its words are read.
pub proof fn law_keywords_hold_no_query_syntax(q: Seq<char>)
    ensures
        forall|k: int| 0 <= k < keywords(q).len() ==> syntax_free(#[trigger] keywords(q)[k]),
{
    reveal_strlit(" AND ");
    reveal_strlit(" OR ");
    reveal_strlit(" NOT ");
    reveal_strlit("(");
    reveal_strlit(")");
    reveal_strlit("\"");
    reveal_strlit("*");
    reveal_strlit("\\");
    reveal_strlit("  ");
    reveal_strlit(" ");
    reveal_strlit("");
    let a = replace(q, " AND "@, " "@);
    let b = replace(a, " OR "@, " "@);
    let c = replace(b, " NOT "@, " "@);
    let d = replace(c, "("@, " "@);
    let e = replace(d, ")"@, " "@);
    let f = replace(e, "\""@, " "@);
    let g = replace(f, "*"@, " "@);
    let h = replace(g, "\\"@, ""@);
    let t = replace(h, "  "@, " "@);
    assert(t == keyword_text(q));
    assert("("@ =~= seq!['(']);
    assert(")"@ =~= seq![')']);
    assert("\""@ =~= seq!['"']);
    assert("*"@ =~= seq!['*']);
    assert("\\"@ =~= seq!['\\']);
    // '('
    lemma_replace_removes(c, '(', " "@);
    lemma_replace_keeps_lacking(d, ")"@, " "@, '(');
    lemma_replace_keeps_lacking(e, "\""@, " "@, '(');
    lemma_replace_keeps_lacking(f, "*"@, " "@, '(');
    lemma_replace_keeps_lacking(g, "\\"@, ""@, '(');
    lemma_replace_keeps_lacking(h, "  "@, " "@, '(');
    // ')'
    lemma_replace_removes(d, ')', " "@);
    lemma_replace_keeps_lacking(e, "\""@, " "@, ')');
    lemma_replace_keeps_lacking(f, "*"@, " "@, ')');
    lemma_replace_keeps_lacking(g, "\\"@, ""@, ')');
    lemma_replace_keeps_lacking(h, "  "@, " "@, ')');
    // '"'
    lemma_replace_removes(e, '"', " "@);
    lemma_replace_keeps_lacking(f, "*"@, " "@, '"');
    lemma_replace_keeps_lacking(g, "\\"@, ""@, '"');
    lemma_replace_keeps_lacking(h, "  "@, " "@, '"');
    // '*'
    lemma_replace_removes(f, '*', " "@);
    lemma_replace_keeps_lacking(g, "\\"@, ""@, '*');
    lemma_replace_keeps_lacking(h, "  "@, " "@, '*');
    // '\\'
    lemma_replace_removes(g, '\\', ""@);
    lemma_replace_keeps_lacking(h, "  "@, " "@, '\\');
    lemma_words_lack(t, '(');
    lemma_words_lack(t, ')');
    lemma_words_lack(t, '"');
    lemma_words_lack(t, '*');
    lemma_words_lack(t, '\\');
    let ws = words(t);
    assert forall|k: int| 0 <= k < ws.len() implies syntax_free(#[trigger] ws[k]) by {}
    lemma_filter_keeps_syntax_free(ws);
    assert(keywords(q) == only_keywords(ws));
}

fn nonempty_literal(s: &str) -> (r: &str)
    requires
        s@.len() > 0,
    ensures
        r@ == s@,
        r@.len() > 0,
{
    s
}

/// Extracts the keywords of a query, for highlighting.
pub fn extract_keywords(q: &str) -> (r: Vec<String>)
    ensures
        r.deep_view() == keywords(q@),
{
    proof {
        reveal_strlit(" AND ");
        reveal_strlit(" OR ");
        reveal_strlit(" NOT ");
        reveal_strlit("(");
        reveal_strlit(")");
        reveal_strlit("\"");
        reveal_strlit("*");
        reveal_strlit("\\");
        reveal_strlit("  ");
    }
    let a = replace_str(q, " AND ", " ");
    let b = replace_str(a.as_str(), " OR ", " ");
    let c = replace_str(b.as_str(), " NOT ", " ");
    let d = replace_str(c.as_str(), "(", " ");
    let e = replace_str(d.as_str(), ")", " ");
    let f = replace_str(e.as_str(), "\"", " ");
    let g = replace_str(f.as_str(), "*", " ");
    let h = replace_str(g.as_str(), "\\", "");
    let cleaned = replace_str(h.as_str(), "  ", " ");
    let ws = split_words(cleaned.as_str());
    let ghost wv = ws.deep_view();
    let mut r: Vec<String> = Vec::new();
    let mut i: usize = 0;
    proof {
        reveal(Seq::filter);
        assert(wv.take(0).filter(|w: Seq<char>| is_keyword(w)) =~= Seq::empty());
    }
    while i < ws.len()
        invariant
            i <= ws@.len(),
            wv == ws.deep_view(),
            wv == words(keyword_text(q@)),
            r.deep_view() == wv.take(i as int).filter(|w: Seq<char>| is_keyword(w)),
        decreases ws@.len() - i,
    {
        proof {
            reveal(Seq::filter);
            assert(wv.take(i + 1).drop_last() == wv.take(i as int));
        }
        let w = &ws[i];
        let wc = chars_of(w.as_str());
        let long_enough = !byte_len_at_most(&wc, 1);
        let has_colon = contains_str(w.as_str(), ":");
        proof {
            reveal_strlit(":");
            assert(":"@ =~= seq![':']);
            if starts_with(w@, seq![':']) {
                assert(crate::text::matches_at(w@, 0, seq![':']));
            }
        }
        if long_enough && !has_colon {
            let ghost before = r.deep_view();
            r.push(owned(w.as_str()));
            assert(r.deep_view() =~= before.push(wv[i as int]));
        }
        i += 1;
    }
    assert(wv.take(i as int) == wv);
    r
}


// ───────────────────────── ordering results ─────────────────────────

/// What a result is sorted by, other than its score.
#[derive(Debug)]
pub struct ResultKey {
    pub modified_ts: i64,
    pub size_bytes: u64,
    pub file_name: String,
}

/// Result `a` sorts strictly before result `b`: newer first by date, larger
/// first by size, by name in ascending order.
pub open spec fn key_before(keys: Seq<ResultKey>, sort: SortBy, a: int, b: int) -> bool {
    match sort {
        SortBy::Date => keys[a].modified_ts > keys[b].modified_ts,
        SortBy::Size => keys[a].size_bytes > keys[b].size_bytes,
        SortBy::Name => lex_lt(keys[a].file_name@, keys[b].file_name@),
        SortBy::Relevance => false,
    }
}

/// Sorting by date puts newer files first, by size larger files first, by
/// name names in ascending order; relevance keeps the engine's order, and
/// so do ties.
pub proof fn law_sort_directions(keys: Seq<ResultKey>, a: int, b: int)
    ensures
        keys[a].modified_ts > keys[b].modified_ts ==> sorts_before(keys, SortBy::Date, a, b),
        keys[a].size_bytes > keys[b].size_bytes ==> sorts_before(keys, SortBy::Size, a, b),
        lex_lt(keys[a].file_name@, keys[b].file_name@) ==> sorts_before(keys, SortBy::Name, a, b),
        sorts_before(keys, SortBy::Relevance, a, b) <==> a < b,
        keys[a].modified_ts == keys[b].modified_ts ==> (sorts_before(keys, SortBy::Date, a, b)
            <==> a < b),
        keys[a].size_bytes == keys[b].size_bytes ==> (sorts_before(keys, SortBy::Size, a, b) <==> a
            < b),
{
}

/// The order of a stable sort: by key, and equal keys by position.
pub open spec fn sorts_before(keys: Seq<ResultKey>, sort: SortBy, a: int, b: int) -> bool {
    key_before(keys, sort, a, b) || (!key_before(keys, sort, b, a) && a < b)
}

proof fn lemma_key_order(keys: Seq<ResultKey>, sort: SortBy, a: int, b: int, c: int)
    requires
        sort != SortBy::Relevance,
    ensures
        !key_before(keys, sort, a, a),
        key_before(keys, sort, a, b) ==> !key_before(keys, sort, b, a),
        key_before(keys, sort, a, b) && key_before(keys, sort, b, c) ==> key_before(
            keys,
            sort,
            a,
            c,
        ),
        key_before(keys, sort, a, b) && !key_before(keys, sort, b, c) && !key_before(
            keys,
            sort,
            c,
            b,
        ) ==> key_before(keys, sort, a, c),
        !key_before(keys, sort, a, b) && !key_before(keys, sort, b, a) && key_before(
            keys,
            sort,
            b,
            c,
        ) ==> key_before(keys, sort, a, c),
{
    if sort == SortBy::Name {
        let x = keys[a].file_name@;
        let y = keys[b].file_name@;
        let z = keys[c].file_name@;
        lemma_lex_irreflexive(x);
        if lex_lt(x, y) {
            lemma_lex_asymmetric(x, y);
            if lex_lt(y, z) {
                lemma_lex_transitive(x, y, z);
            }
            if !lex_lt(y, z) && !lex_lt(z, y) {
                lemma_lex_total(y, z);
            }
        }
        if !lex_lt(x, y) && !lex_lt(y, x) && lex_lt(y, z) {
            lemma_lex_total(x, y);
        }
    }
}

fn key_less(keys: &Vec<ResultKey>, sort: SortBy, a: usize, b: usize) -> (r: bool)
    requires
        a < keys@.len(),
        b < keys@.len(),
    ensures
        r == key_before(keys@, sort, a as int, b as int),
{
    match sort {
        SortBy::Date => keys[a].modified_ts > keys[b].modified_ts,
        SortBy::Size => keys[a].size_bytes > keys[b].size_bytes,
        SortBy::Name => {
            let x = chars_of(keys[a].file_name.as_str());
            let y = chars_of(keys[b].file_name.as_str());
            lex_less(&x, &y)
        },
        SortBy::Relevance => false,
    }
}

/// `order` lists each of `0..n` once.
pub open spec fn is_permutation(order: Seq<usize>, n: nat) -> bool {
    &&& order.len() == n
    &&& forall|i: int| 0 <= i < order.len() ==> order[i] < n
    &&& forall|i: int, j: int| 0 <= i < j < order.len() ==> order[i] != order[j]
}

/// The order in which results are listed for a sort other than relevance:
/// a stable sort by date (newest first), size (largest first) or name.
pub fn sort_order(keys: &Vec<ResultKey>, sort: SortBy) -> (order: Vec<usize>)
    requires
        sort != SortBy::Relevance,
    ensures
        is_permutation(order@, keys@.len()),
        forall|i: int, j: int|
            0 <= i < j < order@.len() ==> sorts_before(
                keys@,
                sort,
                order@[i] as int,
                order@[j] as int,
            ),
{
    let mut order: Vec<usize> = Vec::new();
    let mut i: usize = 0;
    while i < keys.len()
        invariant
            i <= keys@.len(),
            sort != SortBy::Relevance,
            order@.len() == i,
            forall|a: int| 0 <= a < order@.len() ==> order@[a] < i,
            forall|a: int, b: int| 0 <= a < b < order@.len() ==> order@[a] != order@[b],
            forall|a: int, b: int|
                0 <= a < b < order@.len() ==> sorts_before(
                    keys@,
                    sort,
                    order@[a] as int,
                    order@[b] as int,
                ),
        decreases keys@.len() - i,
    {
        let mut p: usize = 0;
        while p < order.len() && !key_less(keys, sort, i, order[p])
            invariant
                p <= order@.len(),
                i < keys@.len(),
                forall|a: int| 0 <= a < order@.len() ==> order@[a] < i,
                forall|a: int| 0 <= a < p ==> !key_before(keys@, sort, i as int, order@[a] as int),
            decreases order@.len() - p,
        {
            p += 1;
        }
        let ghost s = order@;
        order.insert(p, i);
        let ghost t = order@;
        assert(t =~= s.subrange(0, p as int).push(i) + s.subrange(p as int, s.len() as int));
        assert forall|a: int, b: int| 0 <= a < b < t.len() implies sorts_before(
            keys@,
            sort,
            t[a] as int,
            t[b] as int,
        ) by {
            let x = t[a] as int;
            let y = t[b] as int;
            if b < p {
                assert(x == s[a] && y == s[b]);
            } else if b == p {
                assert(x == s[a]);
                lemma_key_order(keys@, sort, x, i as int, x);
            } else if a < p {
                assert(x == s[a] && y == s[b - 1]);
                lemma_key_order(keys@, sort, x, i as int, y);
                lemma_key_order(keys@, sort, i as int, s[p as int] as int, y);
                lemma_key_order(keys@, sort, x, y, i as int);
                lemma_key_order(keys@, sort, i as int, x, y);
                lemma_key_order(keys@, sort, y, x, i as int);
                if p < b - 1 {
                    assert(sorts_before(keys@, sort, s[p as int] as int, y));
                }
            } else if a == p {
                assert(y == s[b - 1]);
                lemma_key_order(keys@, sort, i as int, s[p as int] as int, y);
                lemma_key_order(keys@, sort, y, i as int, y);
                if p < b - 1 {
                    assert(sorts_before(keys@, sort, s[p as int] as int, y));
                }
            } else {
                assert(x == s[a - 1] && y == s[b - 1]);
            }
        }
        i += 1;
    }
    order
}


// ───────────────────────── facets ─────────────────────────

/// Counts of file types and modification-age ranges among the top results,
/// each label once. They are kept as `(label, count)` pairs in a `Vec`:
/// vstd specifies `HashMap` lookups only for key types whose hashing it models
/// (`obeys_key_model`), which it does not state for `String`.
#[derive(Debug)]
pub struct FacetCounts {
    pub file_types: Vec<(String, u64)>,
    pub date_ranges: Vec<(String, u64)>,
}

/// What facets read of one result document.
#[derive(Debug)]
pub struct FacetDoc {
    pub extension: Option<String>,
    pub modified: Option<i64>,
}

/// Number of entries of `keys` equal to `x`.
pub open spec fn occurrences(keys: Seq<Seq<char>>, x: Seq<char>) -> nat
    decreases keys.len(),
{
    if keys.len() == 0 {
        0
    } else {
        occurrences(keys.drop_last(), x) + if keys.last() == x {
            1nat
        } else {
            0nat
        }
    }
}

/// `counts` holds each distinct entry of `keys` once, with its number of
/// occurrences, and nothing else.
pub open spec fn tallies(counts: Seq<(Seq<char>, u64)>, keys: Seq<Seq<char>>) -> bool {
    &&& forall|i: int, j: int| 0 <= i < j < counts.len() ==> counts[i].0 != counts[j].0
    &&& forall|i: int| 0 <= i < counts.len() ==> counts[i].1 == occurrences(keys, counts[i].0)
    &&& forall|x: Seq<char>|
        occurrences(keys, x) > 0 ==> exists|i: int| 0 <= i < counts.len() && counts[i].0 == x
}

proof fn lemma_occurrences_bound(keys: Seq<Seq<char>>, x: Seq<char>)
    ensures
        occurrences(keys, x) <= keys.len(),
    decreases keys.len(),
{
    if keys.len() > 0 {
        lemma_occurrences_bound(keys.drop_last(), x);
    }
}

/// Adds one occurrence of `key` to a tally of `keys`.
fn tally_into(counts: &mut Vec<(String, u64)>, key: String, Ghost(keys): Ghost<Seq<Seq<char>>>)
    requires
        tallies(old(counts).deep_view(), keys),
        keys.len() < u64::MAX,
    ensures
        tallies(final(counts).deep_view(), keys.push(key@)),
{
    let ghost c = counts.deep_view();
    let ghost nk = keys.push(key@);
    assert(nk.drop_last() == keys);
    assert(forall|x: Seq<char>| #[trigger] occurrences(nk, x) == occurrences(keys, x) + if key@ == x {
        1nat
    } else {
        0nat
    });
    let mut i: usize = 0;
    while i < counts.len()
        invariant
            i <= counts@.len(),
            c == counts.deep_view(),
            tallies(c, keys),
            keys.len() < u64::MAX,
            nk == keys.push(key@),
            forall|x: Seq<char>| #[trigger] occurrences(nk, x) == occurrences(keys, x) + if key@ == x {
                1nat
            } else {
                0nat
            },
            forall|j: int| 0 <= j < i ==> c[j].0 != key@,
        decreases counts@.len() - i,
    {
        if counts[i].0.eq(&key) {
            let n = counts[i].1;
            proof {
                lemma_occurrences_bound(keys, key@);
                assert(c[i as int].0 == key@);
                assert(n == occurrences(keys, key@));
            }
            let k = counts[i].0.clone();
            counts.set(i, (k, n + 1));
            let ghost d = counts.deep_view();
            assert(d =~= c.update(i as int, (key@, (n + 1) as u64)));
            assert forall|x: Seq<char>| occurrences(nk, x) > 0 implies exists|j: int| 0 <= j < d.len() && d[j].0 == x by {
                if x != key@ {
                    assert(occurrences(keys, x) > 0);
                    let j = choose|j: int| 0 <= j < c.len() && c[j].0 == x;
                    assert(d[j].0 == x);
                } else {
                    assert(d[i as int].0 == x);
                }
            }
            return;
        }
        i += 1;
    }
    let ghost kv = key@;
    counts.push((key, 1));
    let ghost d = counts.deep_view();
    assert(d =~= c.push((kv, 1u64)));
    assert(occurrences(keys, kv) == 0) by {
        if occurrences(keys, kv) > 0 {
            let j = choose|j: int| 0 <= j < c.len() && c[j].0 == kv;
        }
    }
    assert forall|x: Seq<char>| occurrences(nk, x) > 0 implies exists|j: int| 0 <= j < d.len() && d[j].0 == x by {
        if x != kv {
            assert(occurrences(keys, x) > 0);
            let j = choose|j: int| 0 <= j < c.len() && c[j].0 == x;
            assert(d[j].0 == x);
        } else {
            assert(d[c.len() as int].0 == x);
        }
    }
}

/// Age range of a file modified `age` seconds ago.
pub open spec fn age_bucket(age: int) -> Seq<char> {
    if age < 86400 {
        "今天"@
    } else if age < 604800 {
        "本周"@
    } else if age < 2592000 {
        "本月"@
    } else if age < 7776000 {
        "三个月内"@
    } else if age < 31536000 {
        "一年内"@
    } else {
        "更早"@
    }
}

/// The age ranges are the calendar spans their labels name: under a day is
/// today, under a week this week, under 30 days this month, under 90 days
/// within three months, under 365 days within a year, and older is earlier.
pub proof fn law_age_ranges(age: int)
    ensures
        age < 86400 ==> age_bucket(age) == "今天"@,
        1 * 86400 <= age < 7 * 86400 ==> age_bucket(age) == "本周"@,
        7 * 86400 <= age < 30 * 86400 ==> age_bucket(age) == "本月"@,
        30 * 86400 <= age < 90 * 86400 ==> age_bucket(age) == "三个月内"@,
        90 * 86400 <= age < 365 * 86400 ==> age_bucket(age) == "一年内"@,
        365 * 86400 <= age ==> age_bucket(age) == "更早"@,
{
}

/// The age range, at time `now`, of a file modified at `ts` (unix seconds).
pub fn date_bucket(now: i64, ts: i64) -> (r: String)
    requires
        i64::MIN <= now - ts <= i64::MAX,
    ensures
        r@ == age_bucket(now - ts),
{
    let age = now - ts;
    if age < 86400 {
        owned("今天")
    } else if age < 604800 {
        owned("本周")
    } else if age < 2592000 {
        owned("本月")
    } else if age < 7776000 {
        owned("三个月内")
    } else if age < 31536000 {
        owned("一年内")
    } else {
        owned("更早")
    }
}

/// Facets read at most this many top results.
pub open spec fn facet_window(docs: Seq<Option<FacetDoc>>) -> Seq<Option<FacetDoc>> {
    if docs.len() <= 500 {
        docs
    } else {
        docs.take(500)
    }
}

/// Extensions of the loaded documents that have one, in order.
pub open spec fn extension_keys(docs: Seq<Option<FacetDoc>>) -> Seq<Seq<char>>
    decreases docs.len(),
{
    if docs.len() == 0 {
        seq![]
    } else {
        let rest = extension_keys(docs.drop_last());
        match docs.last() {
            Some(d) => match d.extension {
                Some(e) => rest.push(e@),
                None => rest,
            },
            None => rest,
        }
    }
}

/// Age ranges of the loaded documents that have a modification time.
pub open spec fn age_keys(docs: Seq<Option<FacetDoc>>, now: i64) -> Seq<Seq<char>>
    decreases docs.len(),
{
    if docs.len() == 0 {
        seq![]
    } else {
        let rest = age_keys(docs.drop_last(), now);
        match docs.last() {
            Some(d) => match d.modified {
                Some(ts) => rest.push(age_bucket(now - ts)),
                None => rest,
            },
            None => rest,
        }
    }
}

proof fn lemma_keys_len(docs: Seq<Option<FacetDoc>>, now: i64)
    ensures
        extension_keys(docs).len() <= docs.len(),
        age_keys(docs, now).len() <= docs.len(),
    decreases docs.len(),
{
    if docs.len() > 0 {
        lemma_keys_len(docs.drop_last(), now);
    }
}

/// Counts file types and age ranges among the first 500 results; `None`
/// stands for a result whose document could not be loaded.
pub fn build_facets(docs: &Vec<Option<FacetDoc>>, now: i64) -> (f: FacetCounts)
    requires
        forall|i: int|
            0 <= i < docs@.len() ==> (#[trigger] docs@[i] matches Some(d) && d.modified matches Some(
                ts,
            ) ==> i64::MIN <= now - ts <= i64::MAX),
    ensures
        tallies(f.file_types.deep_view(), extension_keys(facet_window(docs@))),
        tallies(f.date_ranges.deep_view(), age_keys(facet_window(docs@), now)),
{
    let n = if docs.len() <= 500 {
        docs.len()
    } else {
        500
    };
    let ghost w = facet_window(docs@);
    assert(w.len() == n);
    let mut file_types: Vec<(String, u64)> = Vec::new();
    let mut date_ranges: Vec<(String, u64)> = Vec::new();
    let mut i: usize = 0;
    while i < n
        invariant
            i <= n <= 500,
            n <= docs@.len(),
            w == facet_window(docs@),
            w.len() == n,
            forall|k: int| 0 <= k < n ==> w[k] == docs@[k],
            forall|k: int|
                0 <= k < docs@.len() ==> (#[trigger] docs@[k] matches Some(d) && d.modified matches Some(
                    ts,
                ) ==> i64::MIN <= now - ts <= i64::MAX),
            tallies(file_types.deep_view(), extension_keys(w.take(i as int))),
            tallies(date_ranges.deep_view(), age_keys(w.take(i as int), now)),
        decreases n - i,
    {
        assert(w.take(i + 1).drop_last() == w.take(i as int));
        assert(w.take(i + 1).last() == docs@[i as int]);
        proof {
            lemma_keys_len(w.take(i as int), now);
        }
        match &docs[i] {
            Some(d) => {
                match &d.extension {
                    Some(e) => {
                        tally_into(&mut file_types, e.clone(), Ghost(extension_keys(w.take(i as int))));
                    },
                    None => {},
                }
                match d.modified {
                    Some(ts) => {
                        let b = date_bucket(now, ts);
                        tally_into(&mut date_ranges, b, Ghost(age_keys(w.take(i as int), now)));
                    },
                    None => {},
                }
            },
            None => {},
        }
        i += 1;
    }
    assert(w.take(n as int) == w);
    FacetCounts { file_types, date_ranges }
}


// ───────────────────────── sizes and dates ─────────────────────────

pub open spec fn pow1024(k: nat) -> nat
    decreases k,
{
    if k == 0 {
        1
    } else {
        1024 * pow1024((k - 1) as nat)
    }
}

/// The unit a size is shown in: the largest of B, KB, MB, GB, TB that the
/// size reaches (B for sizes under 1024).
pub open spec fn size_unit_from(bytes: nat, k: nat) -> nat
    decreases 4 - k,
{
    if k >= 4 || bytes < pow1024(k + 1) {
        k
    } else {
        size_unit_from(bytes, k + 1)
    }
}

pub open spec fn unit_name(k: nat) -> Seq<char> {
    if k == 0 {
        "B"@
    } else if k == 1 {
        "KB"@
    } else if k == 2 {
        "MB"@
    } else if k == 3 {
        "GB"@
    } else {
        "TB"@
    }
}

/// `num / den` rounded to the nearest integer, ties to even.
pub open spec fn round_half_even(num: nat, den: nat) -> nat {
    let q = num / den;
    let r = num % den;
    if 2 * r > den || (2 * r == den && q % 2 == 1) {
        q + 1
    } else {
        q
    }
}

/// Rounding goes to the nearest integer: the rounded value is at most half
/// a unit away, and where it is exactly half a unit away it is even.
pub proof fn law_round_half_even(num: nat, den: nat)
    requires
        den > 0,
    ensures
        2 * (num - round_half_even(num, den) * den) <= den,
        2 * (round_half_even(num, den) * den - num) <= den,
        2 * (num - round_half_even(num, den) * den) == den || 2 * (round_half_even(num, den) * den
            - num) == den ==> round_half_even(num, den) % 2 == 0,
{
    let q = num / den;
    let r = num % den;
    assert(num == q * den + r) by (nonlinear_arith)
        requires
            den > 0,
            q == num / den,
            r == num % den,
    ;
    assert((q + 1) * den == q * den + den) by (nonlinear_arith);
}

/// A size in bytes as text: the size in its unit with one decimal, a
/// space, and the unit, e.g. `1.5 KB`.
pub open spec fn size_text(bytes: nat) -> Seq<char> {
    let k = size_unit_from(bytes, 0);
    let t = round_half_even(bytes * 10, pow1024(k));
    decimal(t / 10) + "."@ + seq![digit(t % 10)] + " "@ + unit_name(k)
}

proof fn lemma_pow1024(k: nat)
    requires
        k <= 5,
    ensures
        pow1024(k) >= 1,
        k == 1 ==> pow1024(k) == 1024,
        k == 2 ==> pow1024(k) == 1048576,
        k == 3 ==> pow1024(k) == 1073741824,
        k == 4 ==> pow1024(k) == 1099511627776,
        k == 5 ==> pow1024(k) == 1125899906842624,
{
    reveal_with_fuel(pow1024, 6);
}

/// Sizes are shown in binary units: bytes under 1024 B, then KB from 1024,
/// MB from 1024², GB from 1024³ and TB from 1024⁴ on, each with one decimal
/// of the size divided by its unit, rounded to nearest with ties to even.
pub proof fn law_size_units(bytes: nat)
    ensures
        exists|unit: Seq<char>, den: nat|
            #![trigger round_half_even(bytes * 10, den), unit.len()]
            {
                &&& size_text(bytes) == decimal(round_half_even(bytes * 10, den) / 10) + "."@
                    + seq![digit(round_half_even(bytes * 10, den) % 10)] + " "@ + unit
                &&& bytes < 1024 ==> unit == "B"@ && den == 1
                &&& 1024 <= bytes < 1048576 ==> unit == "KB"@ && den == 1024
                &&& 1048576 <= bytes < 1073741824 ==> unit == "MB"@ && den == 1048576
                &&& 1073741824 <= bytes < 1099511627776 ==> unit == "GB"@ && den == 1073741824
                &&& 1099511627776 <= bytes ==> unit == "TB"@ && den == 1099511627776
            },
{
    lemma_pow1024(1);
    lemma_pow1024(2);
    lemma_pow1024(3);
    lemma_pow1024(4);
    lemma_pow1024(5);
    assert(pow1024(0) == 1);
    let k = size_unit_from(bytes, 0);
    if bytes >= 1024 {
        assert(k == size_unit_from(bytes, 1));
        if bytes >= 1048576 {
            assert(size_unit_from(bytes, 1) == size_unit_from(bytes, 2));
            if bytes >= 1073741824 {
                assert(size_unit_from(bytes, 2) == size_unit_from(bytes, 3));
                if bytes >= 1099511627776 {
                    assert(size_unit_from(bytes, 3) == size_unit_from(bytes, 4));
                    assert(size_unit_from(bytes, 4) == 4);
                } else {
                    assert(size_unit_from(bytes, 3) == 3);
                }
            } else {
                assert(size_unit_from(bytes, 2) == 2);
            }
        } else {
            assert(size_unit_from(bytes, 1) == 1);
        }
    }
    let unit = unit_name(k);
    let den = pow1024(k);
    assert(size_text(bytes) == decimal(round_half_even(bytes * 10, den) / 10) + "."@ + seq![
        digit(round_half_even(bytes * 10, den) % 10),
    ] + " "@ + unit);
}

/// Formats a size in bytes for people.
pub fn format_size(bytes: u64) -> (r: String)
    ensures
        r@ == size_text(bytes as nat),
{
    let mut k: usize = 0;
    let mut den: u128 = 1;
    proof {
        lemma_pow1024(0);
        lemma_pow1024(1);
    }
    while k < 4 && (bytes as u128) >= den * 1024
        invariant
            k <= 4,
            den == pow1024(k as nat),
            size_unit_from(bytes as nat, 0) == size_unit_from(bytes as nat, k as nat),
            den <= 1099511627776,
        decreases 4 - k,
    {
        proof {
            lemma_pow1024(k as nat);
            lemma_pow1024((k + 1) as nat);
            lemma_pow1024((k + 2) as nat);
            assert(pow1024((k + 1) as nat) == 1024 * den);
        }
        den = den * 1024;
        k += 1;
    }
    proof {
        lemma_pow1024(k as nat);
        lemma_pow1024((k + 1) as nat);
        assert(pow1024((k + 1) as nat) == 1024 * pow1024(k as nat));
    }
    assert(size_unit_from(bytes as nat, k as nat) == k);
    let num: u128 = (bytes as u128) * 10;
    let q = num / den;
    let rem = num % den;
    let t = if 2 * rem > den || (2 * rem == den && q % 2 == 1) {
        q + 1
    } else {
        q
    };
    assert(t == round_half_even((bytes * 10) as nat, pow1024(k as nat)));
    let mut r = String::new();
    let whole = (t / 10) as u64;
    push_decimal(&mut r, whole);
    push_str(&mut r, ".");
    let d = (t % 10) as u8;
    push_char(&mut r, (d + 48) as char);
    push_str(&mut r, " ");
    let unit = if k == 0 {
        "B"
    } else if k == 1 {
        "KB"
    } else if k == 2 {
        "MB"
    } else if k == 3 {
        "GB"
    } else {
        "TB"
    };
    push_str(&mut r, unit);
    assert(((d + 48) as char) == digit((t % 10) as nat));
    r
}

/// What chrono gives for a unix time: `DateTime::from_timestamp(secs, 0)`
/// formatted with `%Y-%m-%d %H:%M:%S` (UTC), or nothing when the time is
/// out of the range of dates chrono represents.
pub uninterp spec fn utc_timestamp_text(secs: i64) -> Option<Seq<char>>;

/// A leap year of the proleptic Gregorian calendar.
pub open spec fn is_leap_year(y: int) -> bool {
    (y % 4 == 0 && y % 100 != 0) || y % 400 == 0
}

/// How many of the years `1 ..= y - 1` are leap years (for `y >= 1`).
pub open spec fn leap_years_before(y: int) -> int {
    (y - 1) / 4 - (y - 1) / 100 + (y - 1) / 400
}

/// The number of days of month `m` of year `y`.
pub open spec fn month_days(y: int, m: int) -> int {
    if m == 2 {
        if is_leap_year(y) {
            29
        } else {
            28
        }
    } else if m == 4 || m == 6 || m == 9 || m == 11 {
        30
    } else {
        31
    }
}

/// The days of year `y` before month `m`.
pub open spec fn days_before_month(y: int, m: int) -> int
    decreases m,
{
    if m <= 1 {
        0
    } else {
        days_before_month(y, m - 1) + month_days(y, m - 1)
    }
}

/// The days from 1970-01-01 to the date `y-m-d`.
pub open spec fn days_since_epoch(y: int, m: int, d: int) -> int {
    365 * (y - 1970) + leap_years_before(y) - leap_years_before(1970) + days_before_month(y, m) + d
        - 1
}

/// `secs` seconds after the epoch is the UTC time `y-mo-d h:mi:s`.
pub open spec fn is_utc_time(secs: int, y: int, mo: int, d: int, h: int, mi: int, s: int) -> bool {
    &&& 1970 <= y <= 9999
    &&& 1 <= mo <= 12
    &&& 1 <= d <= month_days(y, mo)
    &&& 0 <= h < 24
    &&& 0 <= mi < 60
    &&& 0 <= s < 60
    &&& days_since_epoch(y, mo, d) * 86400 + h * 3600 + mi * 60 + s == secs
}

/// Two decimal digits of `n` (for `0 <= n < 100`).
pub open spec fn two_digits(n: int) -> Seq<char> {
    seq![digit((n / 10) as nat), digit((n % 10) as nat)]
}

/// `YYYY-MM-DD HH:MM:SS`.
pub open spec fn date_time_text(y: int, mo: int, d: int, h: int, mi: int, s: int) -> Seq<char> {
    two_digits(y / 100) + two_digits(y % 100) + seq!['-'] + two_digits(mo) + seq!['-'] + two_digits(
        d,
    ) + seq![' '] + two_digits(h) + seq![':'] + two_digits(mi) + seq![':'] + two_digits(s)
}

/// `t` is the text of the UTC time `secs` seconds after the epoch.
pub open spec fn is_utc_text(secs: int, t: Option<Seq<char>>) -> bool {
    exists|y: int, mo: int, d: int, h: int, mi: int, s: int|
        is_utc_time(secs, y, mo, d, h, mi, s) && t == Some(date_time_text(y, mo, d, h, mi, s))
}

/// The first second of the year 10000: from there on `%Y` has more than four
/// digits.
pub open spec fn year_ten_thousand() -> int {
    253402300800
}

/// `chrono::DateTime::from_timestamp(secs, 0)`, then `DateTime::format`
/// with `%Y-%m-%d %H:%M:%S`. The result is a function of `secs`; for times
/// from the epoch up to the end of the year 9999 it is the UTC date and time
/// in the proleptic Gregorian calendar, each field zero-padded (`%Y` to four
/// digits, the others to two). Before the epoch and from the year 10000 on,
/// only that it is a function of `secs` is stated.
#[verifier::external_body]
fn utc_text(secs: i64) -> (r: Option<String>)
    ensures
        crate::config::opt_text(r) == utc_timestamp_text(secs),
        0 <= secs < year_ten_thousand() ==> is_utc_text(secs as int, crate::config::opt_text(r)),
{
    chrono::DateTime::from_timestamp(secs, 0).map(|dt| dt.format("%Y-%m-%d %H:%M:%S").to_string())
}

pub open spec fn modified_display(ts: i64) -> Seq<char> {
    if ts > 0 {
        match utc_timestamp_text(ts) {
            Some(t) => t,
            None => Seq::empty(),
        }
    } else {
        Seq::empty()
    }
}

/// The modification time of a result as text: empty for times at or before
/// the epoch and for times chrono cannot represent, else the UTC time as
/// `YYYY-MM-DD HH:MM:SS`.
pub fn modified_text(ts: i64) -> (r: String)
    ensures
        r@ == modified_display(ts),
        0 < ts < year_ten_thousand() ==> is_utc_text(ts as int, Some(r@)),
{
    if ts > 0 {
        match utc_text(ts) {
            Some(t) => t,
            None => String::new(),
        }
    } else {
        String::new()
    }
}

// ───────────────────────── index statistics ─────────────────────────

/// Size and document count of the index.
#[derive(Debug)]
pub struct IndexStats {
    pub total_docs: u64,
    pub index_size_bytes: u64,
    pub last_indexed: Option<String>,
}

/// Sum of a sequence of sizes.
pub open spec fn total_size(sizes: Seq<u64>) -> int
    decreases sizes.len(),
{
    if sizes.len() == 0 {
        0
    } else {
        total_size(sizes.drop_last()) + sizes.last()
    }
}

/// Statistics of an index holding `total_docs` documents in files of the
/// given sizes.
pub fn index_stats(total_docs: u64, file_sizes: &Vec<u64>) -> (s: IndexStats)
    requires
        total_size(file_sizes@) <= u64::MAX,
    ensures
        s.total_docs == total_docs,
        s.index_size_bytes == total_size(file_sizes@),
        s.last_indexed is None,
{
    let mut total: u64 = 0;
    let mut i: usize = 0;
    while i < file_sizes.len()
        invariant
            i <= file_sizes@.len(),
            total == total_size(file_sizes@.take(i as int)),
            total_size(file_sizes@) <= u64::MAX,
        decreases file_sizes@.len() - i,
    {
        proof {
            assert(file_sizes@.take(i + 1).drop_last() == file_sizes@.take(i as int));
            lemma_total_size_prefix(file_sizes@, i + 1);
        }
        total = total + file_sizes[i];
        i += 1;
    }
    assert(file_sizes@.take(file_sizes@.len() as int) == file_sizes@);
    IndexStats { total_docs, index_size_bytes: total, last_indexed: None }
}

proof fn lemma_total_size_prefix(sizes: Seq<u64>, k: int)
    requires
        0 <= k <= sizes.len(),
    ensures
        total_size(sizes.take(k)) <= total_size(sizes),
    decreases sizes.len(),
{
    if k < sizes.len() {
        assert(sizes.drop_last().take(k) == sizes.take(k));
        lemma_total_size_prefix(sizes.drop_last(), k);
    } else {
        assert(sizes.take(k) == sizes);
    }
}

// ───────────────────────── previews and suggestions ─────────────────────────

/// A stored text cut to `max_len` characters, with `...` appended when cut.
pub open spec fn preview(content: Seq<char>, max_len: int) -> Seq<char> {
    if content.len() <= max_len {
        content
    } else {
        content.take(max_len) + "..."@
    }
}

/// The preview of a document's text: the whole text when it has at most
/// `max_len` characters, else its first `max_len` characters followed by
/// `...`.
pub fn preview_text(content: &str, max_len: usize) -> (r: String)
    ensures
        r@ == preview(content@, max_len as int),
{
    let v = chars_of(content);
    if v.len() <= max_len {
        return owned(content);
    }
    let mut r = string_from_range(&v, 0, max_len);
    push_str(&mut r, "...");
    assert(v@.subrange(0, max_len as int) == v@.take(max_len as int));
    r
}

/// A preview takes at most `max_len` characters, and three more for the
/// `...` of a cut text.
pub proof fn law_preview_length(content: Seq<char>, max_len: int)
    requires
        max_len >= 0,
    ensures
        preview(content, max_len).len() <= max_len + 3,
        content.len() <= max_len ==> preview(content, max_len) == content,
{
    reveal_strlit("...");
}

/// A search suggestion and its weight.
#[derive(Debug)]
pub struct SearchSuggestion {
    pub term: String,
    pub count: u64,
}

/// Byte range of the context shown around a match at byte `pos` of a
/// prefix of `plen` bytes in a text of `len` bytes.
pub open spec fn context_start(pos: int) -> int {
    if pos >= 10 {
        pos - 10
    } else {
        0
    }
}

pub open spec fn context_end(pos: int, plen: int, len: int) -> int {
    if pos + plen + 40 < len {
        pos + plen + 40
    } else {
        len
    }
}

/// The suggestion text for a document whose text has `prefix` first at
/// character `k`: from 10 bytes before to 40 bytes after the match, line
/// breaks turned into spaces, `...` in front when it does not start the
/// text, trimmed.
pub open spec fn suggestion_text(content: Seq<char>, prefix: Seq<char>, a: int, b: int) -> Seq<
    char,
> {
    trim(
        (if a > 0 {
            "..."@
        } else {
            ""@
        }) + replace(content.subrange(a, b), seq!['\n'], seq![' ']),
    )
}

/// The suggestion a document's text gives for `prefix`, if it holds it.
pub fn suggestion_term(content: &str, prefix: &str) -> (r: Option<String>)
    requires
        byte_len(content@) <= usize::MAX,
        byte_len(prefix@) <= usize::MAX,
        forall|k: int|
            first_match(content@, prefix@, k) ==> {
                let pos = byte_len(content@.take(k)) as int;
                &&& on_boundary(content@, context_start(pos))
                &&& on_boundary(
                    content@,
                    context_end(pos, byte_len(prefix@) as int, byte_len(content@) as int),
                )
            },
    ensures
        r is None <==> !contains(content@, prefix@),
        r matches Some(t) ==> exists|k: int, a: int, b: int|
            first_match(content@, prefix@, k) && byte_len(content@.take(a)) == context_start(
                byte_len(content@.take(k)) as int,
            ) && byte_len(content@.take(b)) == context_end(
                byte_len(content@.take(k)) as int,
                byte_len(prefix@) as int,
                byte_len(content@) as int,
            ) && 0 <= a <= b <= content@.len() && t@ == suggestion_text(content@, prefix@, a, b),
{
    let v = chars_of(content);
    let pv = chars_of(prefix);
    let k = match find_chars(&v, &pv) {
        Some(k) => k,
        None => return None,
    };
    let pos = text_byte_len(&v, k);
    let plen = text_byte_len(&pv, pv.len());
    let len = text_byte_len(&v, v.len());
    proof {
        assert(pv@.take(pv@.len() as int) == pv@);
        assert(v@.take(v@.len() as int) == v@);
        assert(first_match(content@, prefix@, k as int));
        crate::text::lemma_byte_len_take_monotone(v@, k as int, v@.len() as int);
    }
    let start = if pos >= 10 {
        pos - 10
    } else {
        0
    };
    let end = if (pos as u128) + (plen as u128) + 40 < (len as u128) {
        pos + plen + 40
    } else {
        len
    };
    let a = match char_index_at(&v, start) {
        Some(a) => a,
        None => {
            proof {
                assert(false);
            }
            return None;
        },
    };
    let b = match char_index_at(&v, end) {
        Some(b) => b,
        None => {
            proof {
                assert(false);
            }
            return None;
        },
    };
    proof {
        if a > b {
            crate::text::lemma_byte_len_take_monotone(v@, b as int, a as int);
        }
    }
    let slice = string_from_range(&v, a, b);
    proof {
        reveal_strlit("\n");
        reveal_strlit(" ");
        assert("\n"@ =~= seq!['\n']);
        assert(" "@ =~= seq![' ']);
    }
    let spaced = replace_str(slice.as_str(), "\n", " ");
    let mut s = if start > 0 {
        owned("...")
    } else {
        String::new()
    };
    push_str(&mut s, spaced.as_str());
    assert(s@ == (if a > 0 {
        "..."@
    } else {
        ""@
    }) + replace(v@.subrange(a as int, b as int), seq!['\n'], seq![' '])) by {
        reveal_strlit("");
        if a == 0 {
            assert(byte_len(v@.take(0)) == 0);
        } else {
            crate::text::lemma_byte_len_take_monotone(v@, 0, a as int);
            assert(v@.take(0) =~= Seq::<char>::empty());
        }
    }
    let t = crate::text::trim_str(s.as_str());
    assert(first_match(content@, prefix@, k as int) && byte_len(content@.take(a as int))
        == context_start(byte_len(content@.take(k as int)) as int) && byte_len(
        content@.take(b as int),
    ) == context_end(
        byte_len(content@.take(k as int)) as int,
        byte_len(prefix@) as int,
        byte_len(content@) as int,
    ) && 0 <= a <= b <= content@.len() && t@ == suggestion_text(
        content@,
        prefix@,
        a as int,
        b as int,
    ));
    Some(t)
}

/// Whether the suggestion of a hit can be cut from its text without
/// splitting a character (`hit_cuts_ok`).
pub fn suggestion_cuts_ok(content: &str, prefix: &str) -> (b: bool)
    requires
        byte_len(prefix@) <= usize::MAX,
    ensures
        b == hit_cuts_ok(content@, prefix@),
{
    let v = chars_of(content);
    let pv = chars_of(prefix);
    if !byte_len_at_most(&v, usize::MAX) {
        return false;
    }
    let k = match find_chars(&v, &pv) {
        Some(k) => k,
        None => {
            proof {
                assert forall|k: int| !first_match(content@, prefix@, k) by {
                    if first_match(content@, prefix@, k) {
                        assert(crate::text::matches_at(content@, k, prefix@));
                    }
                }
            }
            return true;
        },
    };
    let pos = text_byte_len(&v, k);
    let plen = text_byte_len(&pv, pv.len());
    let len = text_byte_len(&v, v.len());
    proof {
        assert(pv@.take(pv@.len() as int) == pv@);
        assert(v@.take(v@.len() as int) == v@);
    }
    let start = if pos >= 10 {
        pos - 10
    } else {
        0
    };
    let end = if (pos as u128) + (plen as u128) + 40 < (len as u128) {
        pos + plen + 40
    } else {
        len
    };
    let ok = char_index_at(&v, start).is_some() && char_index_at(&v, end).is_some();
    proof {
        assert forall|m: int| first_match(content@, prefix@, m) implies m == k by {
            crate::text::lemma_first_match_unique(content@, prefix@, m, k as int);
        }
    }
    ok
}

/// Byte length of the first `k` characters of `v`.
fn text_byte_len(v: &Vec<char>, k: usize) -> (n: usize)
    requires
        k <= v@.len(),
        byte_len(v@) <= usize::MAX,
    ensures
        n == byte_len(v@.take(k as int)),
{
    let mut i: usize = 0;
    let mut acc: usize = 0;
    assert(v@.take(0) == Seq::<char>::empty());
    while i < k
        invariant
            i <= k <= v@.len(),
            acc == byte_len(v@.take(i as int)),
            byte_len(v@) <= usize::MAX,
        decreases k - i,
    {
        proof {
            assert(v@.take(i + 1) == v@.take(i as int).push(v@[i as int]));
            lemma_byte_len_push(v@.take(i as int), v@[i as int]);
            crate::text::lemma_byte_len_take_monotone(v@, i + 1, v@.len() as int);
            assert(v@.take(v@.len() as int) == v@);
        }
        acc = acc + crate::text::width_of(v[i]);
        i += 1;
    }
    acc
}


/// A document found for a suggestion prefix: its stored text and weight.
#[derive(Debug)]
pub struct SuggestionHit {
    pub content: String,
    pub count: u64,
}

/// Suggestions need a prefix of at least two bytes.
pub fn suggestion_prefix_ok(prefix: &str) -> (b: bool)
    ensures
        b == (byte_len(prefix@) >= 2),
{
    let v = chars_of(prefix);
    !byte_len_at_most(&v, 1)
}

pub open spec fn suggestion_view(s: SearchSuggestion) -> (Seq<char>, u64) {
    (s.term@, s.count)
}

pub open spec fn suggestion_views(s: Seq<SearchSuggestion>) -> Seq<(Seq<char>, u64)> {
    s.map_values(|x: SearchSuggestion| suggestion_view(x))
}

/// `Vec::dedup_by` on equal terms: of each run of suggestions with the
/// same term, only the first is kept.
pub open spec fn dedup_terms(s: Seq<(Seq<char>, u64)>) -> Seq<(Seq<char>, u64)>
    decreases s.len(),
{
    if s.len() == 0 {
        s
    } else {
        let r = dedup_terms(s.drop_last());
        if r.len() > 0 && r.last().0 == s.last().0 {
            r
        } else {
            r.push(s.last())
        }
    }
}

/// The suggestions the hits give for `prefix`, in order.
pub open spec fn hit_terms(hits: Seq<SuggestionHit>, prefix: Seq<char>) -> Seq<(Seq<char>, u64)>
    decreases hits.len(),
{
    if hits.len() == 0 {
        seq![]
    } else {
        let rest = hit_terms(hits.drop_last(), prefix);
        let h = hits.last();
        if contains(h.content@, prefix) {
            rest.push((choose|t: Seq<char>| suggestion_of(h.content@, prefix, t), h.count))
        } else {
            rest
        }
    }
}

/// `t` is the suggestion text of `content` for `prefix` (see `suggestion_term`).
pub open spec fn suggestion_of(content: Seq<char>, prefix: Seq<char>, t: Seq<char>) -> bool {
    exists|k: int, a: int, b: int|
        first_match(content, prefix, k) && byte_len(content.take(a)) == context_start(
            byte_len(content.take(k)) as int,
        ) && byte_len(content.take(b)) == context_end(
            byte_len(content.take(k)) as int,
            byte_len(prefix) as int,
            byte_len(content) as int,
        ) && 0 <= a <= b <= content.len() && t == suggestion_text(content, prefix, a, b)
}

/// The text a hit can be cut at without splitting a character.
pub open spec fn hit_cuts_ok(content: Seq<char>, prefix: Seq<char>) -> bool {
    &&& byte_len(content) <= usize::MAX
    &&& forall|k: int|
        first_match(content, prefix, k) ==> {
            let pos = byte_len(content.take(k)) as int;
            &&& on_boundary(content, context_start(pos))
            &&& on_boundary(content, context_end(pos, byte_len(prefix) as int, byte_len(content) as int))
        }
}

proof fn lemma_suggestion_unique(content: Seq<char>, prefix: Seq<char>, t1: Seq<char>, t2: Seq<char>)
    requires
        suggestion_of(content, prefix, t1),
        suggestion_of(content, prefix, t2),
    ensures
        t1 == t2,
{
    let (k1, a1, b1) = choose|k: int, a: int, b: int|
        first_match(content, prefix, k) && byte_len(content.take(a)) == context_start(
            byte_len(content.take(k)) as int,
        ) && byte_len(content.take(b)) == context_end(
            byte_len(content.take(k)) as int,
            byte_len(prefix) as int,
            byte_len(content) as int,
        ) && 0 <= a <= b <= content.len() && t1 == suggestion_text(content, prefix, a, b);
    let (k2, a2, b2) = choose|k: int, a: int, b: int|
        first_match(content, prefix, k) && byte_len(content.take(a)) == context_start(
            byte_len(content.take(k)) as int,
        ) && byte_len(content.take(b)) == context_end(
            byte_len(content.take(k)) as int,
            byte_len(prefix) as int,
            byte_len(content) as int,
        ) && 0 <= a <= b <= content.len() && t2 == suggestion_text(content, prefix, a, b);
    if k1 < k2 {
        assert(!crate::text::matches_at(content, k1, prefix));
    } else if k2 < k1 {
        assert(!crate::text::matches_at(content, k2, prefix));
    }
    if a1 < a2 {
        crate::text::lemma_byte_len_take_monotone(content, a1, a2);
    } else if a2 < a1 {
        crate::text::lemma_byte_len_take_monotone(content, a2, a1);
    }
    if b1 < b2 {
        crate::text::lemma_byte_len_take_monotone(content, b1, b2);
    } else if b2 < b1 {
        crate::text::lemma_byte_len_take_monotone(content, b2, b1);
    }
}

/// The suggestions for `prefix` from the documents found for it: runs of
/// equal terms kept once, at most `limit` of them.
pub open spec fn suggestions_for(hits: Seq<SuggestionHit>, prefix: Seq<char>, limit: int) -> Seq<
    (Seq<char>, u64),
> {
    let d = dedup_terms(hit_terms(hits, prefix));
    if d.len() <= limit {
        d
    } else {
        d.take(limit)
    }
}

/// The term at `i` differs from the next one.
pub open spec fn differs_from_next(s: Seq<(Seq<char>, u64)>, i: int) -> bool {
    s[i].0 != s[i + 1].0
}

proof fn lemma_dedup_neighbours(s: Seq<(Seq<char>, u64)>)
    ensures
        forall|i: int|
            0 <= i < dedup_terms(s).len() - 1 ==> #[trigger] differs_from_next(dedup_terms(s), i),
        dedup_terms(s).len() <= s.len(),
    decreases s.len(),
{
    if s.len() > 0 {
        let r = dedup_terms(s.drop_last());
        lemma_dedup_neighbours(s.drop_last());
        if !(r.len() > 0 && r.last().0 == s.last().0) {
            let d = r.push(s.last());
            assert forall|i: int| 0 <= i < d.len() - 1 implies #[trigger] differs_from_next(d, i) by {
                if i < r.len() - 1 {
                    assert(differs_from_next(r, i));
                }
            }
        }
    }
}

/// Suggestions never repeat a term twice in a row, and there are at most
/// `limit` of them.
pub proof fn law_suggestions_distinct_neighbours(
    hits: Seq<SuggestionHit>,
    prefix: Seq<char>,
    limit: nat,
)
    ensures
        suggestions_for(hits, prefix, limit as int).len() <= limit,
        forall|i: int|
            0 <= i < suggestions_for(hits, prefix, limit as int).len() - 1
                ==> #[trigger] differs_from_next(suggestions_for(hits, prefix, limit as int), i),
{
    let d = dedup_terms(hit_terms(hits, prefix));
    lemma_dedup_neighbours(hit_terms(hits, prefix));
    if d.len() > limit {
        assert forall|i: int| 0 <= i < limit - 1 implies #[trigger] differs_from_next(
            d.take(limit as int),
            i,
        ) by {
            assert(differs_from_next(d, i));
        }
    }
}

/// Turns the documents found for a prefix into suggestions: one per
/// document that holds the prefix, runs of equal terms kept once, at most
/// `limit` of them.
pub fn collect_suggestions(prefix: &str, hits: &Vec<SuggestionHit>, limit: usize) -> (r: Vec<
    SearchSuggestion,
>)
    requires
        byte_len(prefix@) <= usize::MAX,
        forall|i: int| 0 <= i < hits@.len() ==> hit_cuts_ok(#[trigger] hits@[i].content@, prefix@),
    ensures
        suggestion_views(r@) == suggestions_for(hits@, prefix@, limit as int),
{
    let mut r: Vec<SearchSuggestion> = Vec::new();
    let mut i: usize = 0;
    while i < hits.len()
        invariant
            i <= hits@.len(),
            byte_len(prefix@) <= usize::MAX,
            forall|j: int| 0 <= j < hits@.len() ==> hit_cuts_ok(#[trigger] hits@[j].content@, prefix@),
            suggestion_views(r@) == dedup_terms(hit_terms(hits@.take(i as int), prefix@)),
        decreases hits@.len() - i,
    {
        let h = &hits[i];
        assert(hits@.take(i + 1).drop_last() == hits@.take(i as int));
        assert(hits@.take(i + 1).last() == hits@[i as int]);
        assert(hit_cuts_ok(hits@[i as int].content@, prefix@));
        let ghost prev = hit_terms(hits@.take(i as int), prefix@);
        match suggestion_term(h.content.as_str(), prefix) {
            Some(t) => {
                proof {
                    assert(suggestion_of(h.content@, prefix@, t@));
                    let c = choose|t2: Seq<char>| suggestion_of(h.content@, prefix@, t2);
                    lemma_suggestion_unique(h.content@, prefix@, c, t@);
                    assert(hit_terms(hits@.take(i + 1), prefix@) == prev.push((t@, h.count)));
                    assert(prev.push((t@, h.count)).drop_last() == prev);
                }
                let ghost before = suggestion_views(r@);
                let dup = r.len() > 0 && r[r.len() - 1].term.eq(&t);
                if dup {
                    assert(before.last() == suggestion_view(r@[r@.len() - 1]));
                } else {
                    let ghost tv = t@;
                    r.push(SearchSuggestion { term: t, count: h.count });
                    assert(suggestion_views(r@) =~= before.push((tv, h.count)));
                }
            },
            None => {
                assert(hit_terms(hits@.take(i + 1), prefix@) == prev);
            },
        }
        i += 1;
    }
    assert(hits@.take(i as int) == hits@);
    if r.len() > limit {
        let ghost before = suggestion_views(r@);
        r.truncate(limit);
        assert(suggestion_views(r@) =~= before.take(limit as int));
    }
    r
}

// ───────────────────────── export ─────────────────────────

/// A search result as exported to CSV; the score is already formatted
/// with two decimals.
#[derive(Debug)]
pub struct ExportRow {
    pub file_path: String,
    pub file_name: String,
    pub file_ext: String,
    pub score_text: String,
    pub modified: String,
    pub size_formatted: String,
}

/// A CSV field with its double quotes doubled.
pub open spec fn csv_escape(s: Seq<char>) -> Seq<char> {
    replace(s, seq!['"'], seq!['"', '"'])
}

/// One CSV line of an exported result.
pub open spec fn csv_line(r: ExportRow) -> Seq<char> {
    "\""@ + csv_escape(r.file_path@) + "\",\""@ + csv_escape(r.file_name@) + "\",\""@
        + r.file_ext@ + "\","@ + r.score_text@ + ",\""@ + r.modified@ + "\",\""@
        + r.size_formatted@ + "\"\n"@
}

pub open spec fn csv_lines(rows: Seq<ExportRow>) -> Seq<char>
    decreases rows.len(),
{
    if rows.len() == 0 {
        seq![]
    } else {
        csv_lines(rows.drop_last()) + csv_line(rows.last())
    }
}

pub open spec fn csv_header() -> Seq<char> {
    "文件路径,文件名,类型,相关度,修改时间,大小\n"@
}

/// Writes search results as CSV with a header line.
pub fn results_to_csv(rows: &Vec<ExportRow>) -> (csv: String)
    ensures
        csv@ == csv_header() + csv_lines(rows@),
{
    let mut csv = owned("文件路径,文件名,类型,相关度,修改时间,大小\n");
    let mut i: usize = 0;
    proof {
        reveal_strlit("\"");
        reveal_strlit("\"\"");
        assert("\""@ =~= seq!['"']);
        assert("\"\""@ =~= seq!['"', '"']);
    }
    assert(rows@.take(0) == Seq::<ExportRow>::empty());
    while i < rows.len()
        invariant
            i <= rows@.len(),
            csv@ == csv_header() + csv_lines(rows@.take(i as int)),
            "\""@ == seq!['"'],
            "\"\""@ == seq!['"', '"'],
        decreases rows@.len() - i,
    {
        let r = &rows[i];
        let ghost before = csv@;
        push_str(&mut csv, "\"");
        let p = replace_str(r.file_path.as_str(), "\"", "\"\"");
        push_str(&mut csv, p.as_str());
        push_str(&mut csv, "\",\"");
        let n = replace_str(r.file_name.as_str(), "\"", "\"\"");
        push_str(&mut csv, n.as_str());
        push_str(&mut csv, "\",\"");
        push_str(&mut csv, r.file_ext.as_str());
        push_str(&mut csv, "\",");
        push_str(&mut csv, r.score_text.as_str());
        push_str(&mut csv, ",\"");
        push_str(&mut csv, r.modified.as_str());
        push_str(&mut csv, "\",\"");
        push_str(&mut csv, r.size_formatted.as_str());
        push_str(&mut csv, "\"\n");
        assert(rows@.take(i + 1).drop_last() == rows@.take(i as int));
        assert(rows@.take(i + 1).last() == rows@[i as int]);
        assert(csv@ =~= before + csv_line(rows@[i as int]));
        i += 1;
    }
    assert(rows@.take(i as int) == rows@);
    csv
}

}
