//! Result snippets: a document's text cut to a length at a word break, or
//! the context around the first keyword match with each keyword marked.
//! Lengths and offsets are in UTF-8 bytes, as the stored text measures them.
use vstd::prelude::*;
use crate::text::{
    byte_len, chars_of, find_chars, first_match, is_control, is_ctrl, is_whitespace, is_ws,
    lemma_byte_len_bound, lemma_byte_len_push, lemma_byte_len_take_monotone, matches_at,
    on_boundary, owned, push_str, string_from_chars, string_from_range, width_of, lowercase,
    lowercase_known, to_lowercase,
};

verus! {

// ───────────────────────── byte offsets and characters ─────────────────────────

/// Counting characters from `k`, the most that fit in `b` bytes.
pub open spec fn floor_from(s: Seq<char>, b: int, k: int) -> int
    decreases s.len() - k,
{
    if 0 <= k < s.len() && byte_len(s.take(k + 1)) <= b {
        floor_from(s, b, k + 1)
    } else {
        k
    }
}

/// Number of characters before the last character boundary at or before
/// byte `b` (where `while !is_char_boundary(i) { i -= 1 }` stops).
pub open spec fn floor_index(s: Seq<char>, b: int) -> int {
    floor_from(s, b, 0)
}

/// Number of characters before the first character boundary at or after
/// byte `b` (where `while !is_char_boundary(i) { i += 1 }` stops).
pub open spec fn ceil_index(s: Seq<char>, b: int) -> int {
    let k = floor_index(s, b);
    if byte_len(s.take(k)) == b {
        k
    } else {
        k + 1
    }
}

/// `k` characters of `s` fit in `b` bytes and `k + 1` do not.
pub open spec fn is_floor(s: Seq<char>, b: int, k: int) -> bool {
    &&& 0 <= k <= s.len()
    &&& byte_len(s.take(k)) <= b
    &&& k < s.len() ==> byte_len(s.take(k + 1)) > b
}

proof fn lemma_floor_from(s: Seq<char>, b: int, k: int)
    requires
        0 <= k <= s.len(),
        byte_len(s.take(k)) <= b,
    ensures
        is_floor(s, b, floor_from(s, b, k)),
        k <= floor_from(s, b, k),
    decreases s.len() - k,
{
    if k < s.len() && byte_len(s.take(k + 1)) <= b {
        lemma_floor_from(s, b, k + 1);
    }
}

pub proof fn lemma_floor(s: Seq<char>, b: int)
    requires
        b >= 0,
    ensures
        is_floor(s, b, floor_index(s, b)),
{
    assert(s.take(0) == Seq::<char>::empty());
    lemma_floor_from(s, b, 0);
}

pub proof fn lemma_floor_unique(s: Seq<char>, b: int, k: int)
    requires
        is_floor(s, b, k),
    ensures
        floor_index(s, b) == k,
{
    let f = floor_index(s, b);
    lemma_floor(s, b);
    if f < k {
        lemma_byte_len_take_monotone(s, f + 1, k);
    } else if k < f {
        lemma_byte_len_take_monotone(s, k + 1, f);
    }
}

pub proof fn lemma_floor_monotone(s: Seq<char>, x: int, y: int)
    requires
        0 <= x <= y,
    ensures
        floor_index(s, x) <= floor_index(s, y),
{
    lemma_floor(s, x);
    lemma_floor(s, y);
    let i = floor_index(s, x);
    let j = floor_index(s, y);
    if j < i {
        lemma_byte_len_take_monotone(s, j + 1, i);
    }
}

/// At a boundary, the floor is that boundary.
pub proof fn lemma_floor_at(s: Seq<char>, k: int)
    requires
        0 <= k <= s.len(),
    ensures
        floor_index(s, byte_len(s.take(k)) as int) == k,
{
    if k < s.len() {
        lemma_byte_len_take_monotone(s, k, k + 1);
    }
    lemma_floor_unique(s, byte_len(s.take(k)) as int, k);
}

pub proof fn lemma_ceil(s: Seq<char>, b: int)
    requires
        0 <= b <= byte_len(s),
    ensures
        floor_index(s, b) <= ceil_index(s, b) <= s.len(),
        byte_len(s.take(ceil_index(s, b))) >= b,
{
    lemma_floor(s, b);
    assert(s.take(s.len() as int) == s);
    let k = floor_index(s, b);
    if byte_len(s.take(k)) != b && k < s.len() {
    }
}

/// The ceiling of a larger offset is not before the floor of a smaller one.
pub proof fn lemma_floor_ceil(s: Seq<char>, x: int, y: int)
    requires
        0 <= x <= y <= byte_len(s),
    ensures
        floor_index(s, x) <= ceil_index(s, y),
{
    lemma_floor_monotone(s, x, y);
    lemma_ceil(s, y);
}

fn bytes_before(v: &Vec<char>, k: usize) -> (n: u128)
    requires
        k <= v@.len(),
    ensures
        n == byte_len(v@.take(k as int)),
        n <= 4 * k,
{
    let mut i: usize = 0;
    let mut acc: u128 = 0;
    assert(v@.take(0) == Seq::<char>::empty());
    while i < k
        invariant
            i <= k <= v@.len(),
            acc == byte_len(v@.take(i as int)),
        decreases k - i,
    {
        proof {
            assert(v@.take(i + 1) == v@.take(i as int).push(v@[i as int]));
            lemma_byte_len_push(v@.take(i as int), v@[i as int]);
            lemma_byte_len_bound(v@.take(i + 1));
        }
        acc = acc + width_of(v[i]) as u128;
        i += 1;
    }
    proof {
        lemma_byte_len_bound(v@.take(k as int));
    }
    acc
}

fn floor_char(v: &Vec<char>, b: u128) -> (k: usize)
    ensures
        k == floor_index(v@, b as int),
        is_floor(v@, b as int, k as int),
{
    let mut k: usize = 0;
    let mut acc: u128 = 0;
    assert(v@.take(0) == Seq::<char>::empty());
    while k < v.len()
        invariant
            k <= v@.len(),
            acc == byte_len(v@.take(k as int)),
            acc <= b,
        decreases v@.len() - k,
    {
        proof {
            assert(v@.take(k + 1) == v@.take(k as int).push(v@[k as int]));
            lemma_byte_len_push(v@.take(k as int), v@[k as int]);
            lemma_byte_len_bound(v@.take(k + 1));
        }
        let w = width_of(v[k]) as u128;
        if acc + w > b {
            proof {
                lemma_floor_unique(v@, b as int, k as int);
            }
            return k;
        }
        acc = acc + w;
        k += 1;
    }
    proof {
        lemma_floor_unique(v@, b as int, k as int);
    }
    k
}

fn ceil_char(v: &Vec<char>, b: u128) -> (k: usize)
    requires
        b <= byte_len(v@),
    ensures
        k == ceil_index(v@, b as int),
        k <= v@.len(),
{
    let f = floor_char(v, b);
    proof {
        lemma_ceil(v@, b as int);
    }
    let bf = bytes_before(v, f);
    if bf == b {
        f
    } else {
        assert(ceil_index(v@, b as int) == f + 1);
        assert(f + 1 <= v.len());
        f + 1
    }
}

// ───────────────────────── cutting a text to a length ─────────────────────────

/// Characters that a plain snippet keeps: all but control characters,
/// line feed and tab excepted.
pub open spec fn kept(c: char) -> bool {
    !is_ctrl(c) || c == '\n' || c == '\t'
}

pub open spec fn without_controls(s: Seq<char>) -> Seq<char> {
    s.filter(|c: char| kept(c))
}

/// Where a snippet may be cut short: whitespace, `。` and `，`.
pub open spec fn is_break(c: char) -> bool {
    is_ws(c) || c == '。' || c == '，'
}

/// Index of the last break character among the first `k` characters, or -1.
pub open spec fn last_break(s: Seq<char>, k: int) -> int
    decreases k,
{
    if k <= 0 {
        -1
    } else if is_break(s[k - 1]) {
        k - 1
    } else {
        last_break(s, k - 1)
    }
}

/// The text cut after its first `max_len` characters: at the last break
/// among them when that lies past half of `max_len`, else right there;
/// `...` follows either way.
pub open spec fn shortened(s: Seq<char>, max_len: int) -> Seq<char> {
    let j = last_break(s, max_len);
    if j >= 0 && j > max_len / 2 {
        s.take(j) + "..."@
    } else {
        s.take(max_len) + "..."@
    }
}

/// The plain snippet of a text: control characters dropped, then cut to
/// `max_len` characters as `shortened` says when it is longer.
pub open spec fn plain_snippet(content: Seq<char>, max_len: int) -> Seq<char> {
    let c = without_controls(content);
    if c.len() <= max_len {
        c
    } else {
        shortened(c, max_len)
    }
}

fn drop_controls(s: &str) -> (v: Vec<char>)
    ensures
        v@ == without_controls(s@),
{
    let cs = chars_of(s);
    let mut v: Vec<char> = Vec::new();
    let mut i: usize = 0;
    proof {
        reveal(Seq::filter);
        assert(cs@.take(0) == Seq::<char>::empty());
    }
    while i < cs.len()
        invariant
            i <= cs@.len(),
            v@ == cs@.take(i as int).filter(|c: char| kept(c)),
        decreases cs@.len() - i,
    {
        let c = cs[i];
        proof {
            reveal(Seq::filter);
            assert(cs@.take(i + 1).drop_last() == cs@.take(i as int));
        }
        if !is_control(c) || c == '\n' || c == '\t' {
            v.push(c);
        }
        i += 1;
    }
    assert(cs@.take(cs@.len() as int) == cs@);
    v
}

fn is_break_char(c: char) -> (b: bool)
    ensures
        b == is_break(c),
{
    is_whitespace(c) || c == '。' || c == '，'
}

/// The text of a result shown without highlighting: control characters
/// (but line feeds and tabs) dropped, and when longer than `max_len`
/// characters, cut at the last break past half of `max_len`, or at
/// `max_len`, with `...` appended.
pub fn truncate_snippet(content: &str, max_len: usize) -> (r: String)
    ensures
        r@ == plain_snippet(content@, max_len as int),
{
    let v = drop_controls(content);
    if v.len() <= max_len {
        return string_from_chars(&v);
    }
    let k = max_len;
    let mut j = k;
    while j > 0 && !is_break_char(v[j - 1])
        invariant
            j <= k < v@.len(),
            last_break(v@, k as int) == last_break(v@, j as int),
        decreases j,
    {
        j -= 1;
    }
    if j > 0 && j - 1 > max_len / 2 {
        let mut r = string_from_range(&v, 0, j - 1);
        push_str(&mut r, "...");
        assert(v@.subrange(0, j - 1) == v@.take(j - 1));
        return r;
    }
    let mut r = string_from_range(&v, 0, k);
    push_str(&mut r, "...");
    assert(v@.subrange(0, k as int) == v@.take(k as int));
    r
}

/// A plain snippet takes at most `max_len` characters, and three more for
/// the `...` of a cut text.
pub proof fn law_plain_snippet_length(content: Seq<char>, max_len: int)
    requires
        max_len >= 0,
    ensures
        plain_snippet(content, max_len).len() <= max_len + 3,
        without_controls(content).len() <= max_len ==> plain_snippet(content, max_len)
            == without_controls(content),
{
    let c = without_controls(content);
    if c.len() > max_len {
        lemma_last_break(c, max_len);
        reveal_strlit("...");
    }
}

proof fn lemma_last_break(s: Seq<char>, k: int)
    requires
        0 <= k,
    ensures
        -1 <= last_break(s, k) < k,
        k <= s.len() && last_break(s, k) >= 0 ==> is_break(s[last_break(s, k)]),
        k <= s.len() ==> forall|i: int| last_break(s, k) < i < k ==> !is_break(#[trigger] s[i]),
    decreases k,
{
    if k > 0 && !is_break(s[k - 1]) {
        lemma_last_break(s, k - 1);
    }
}

/// Where a long plain text is cut: after its first `max_len` characters, or
/// earlier at a space, another whitespace, `。` or `，` that lies past half of
/// `max_len` and is the last such character among the first `max_len`; a
/// cut right at `max_len` happens only when no such character lies past
/// half. `...` follows the cut.
pub proof fn law_snippet_cut(s: Seq<char>, max_len: int)
    requires
        0 <= max_len < s.len(),
    ensures
        exists|k: int|
            #![trigger s.take(k)]
            0 <= k <= max_len && shortened(s, max_len) == s.take(k) + "..."@ && (k == max_len || (k
                > max_len / 2 && (is_ws(s[k]) || s[k] == '。' || s[k] == '，'))) && (forall|i: int|
                k < i < max_len ==> !(is_ws(#[trigger] s[i]) || s[i] == '。' || s[i] == '，')) && (k
                == max_len ==> forall|i: int|
                max_len / 2 < i < max_len ==> !(is_ws(#[trigger] s[i]) || s[i] == '。' || s[i]
                    == '，')),
{
    lemma_last_break(s, max_len);
    let j = last_break(s, max_len);
    if j >= 0 && j > max_len / 2 {
        assert(shortened(s, max_len) == s.take(j) + "..."@);
    } else {
        assert(shortened(s, max_len) == s.take(max_len) + "..."@);
    }
}

// ───────────────────────── highlighted snippets ─────────────────────────

/// Control characters other than line feed and tab shown as spaces.
pub open spec fn blank_control(c: char) -> char {
    if is_ctrl(c) && c != '\n' && c != '\t' {
        ' '
    } else {
        c
    }
}

pub open spec fn blanked(s: Seq<char>) -> Seq<char> {
    s.map_values(|c: char| blank_control(c))
}

/// Character index of the first occurrence of `pat` in `s`.
pub open spec fn match_index(s: Seq<char>, pat: Seq<char>) -> Option<int> {
    if exists|k: int| first_match(s, pat, k) {
        Some(choose|k: int| first_match(s, pat, k))
    } else {
        None
    }
}

/// Byte offset of the first occurrence of `pat` in `s` (`str::find`).
pub open spec fn find_byte(s: Seq<char>, pat: Seq<char>) -> Option<int> {
    match match_index(s, pat) {
        Some(k) => Some(byte_len(s.take(k)) as int),
        None => None,
    }
}

/// The smallest byte offset at which one of `pats` first occurs in `s`.
pub open spec fn earliest(s: Seq<char>, pats: Seq<Seq<char>>) -> Option<int>
    decreases pats.len(),
{
    if pats.len() == 0 {
        None
    } else {
        let before = earliest(s, pats.drop_last());
        match find_byte(s, pats.last()) {
            None => before,
            Some(p) => match before {
                None => Some(p),
                Some(q) => Some(
                    if q <= p {
                        q
                    } else {
                        p
                    },
                ),
            },
        }
    }
}

/// The snippet around the earliest keyword match: `window` bytes on each
/// side of byte `pos` of the lowered text (0 when nothing matched), widened
/// to character boundaries of the text `c`, with `...` in front when it
/// does not start the text.
pub open spec fn context_snippet(c: Seq<char>, pos: int, window: int) -> Seq<char> {
    let n = byte_len(c) as int;
    let a = floor_index(
        c,
        if pos >= window {
            pos - window
        } else {
            0
        },
    );
    let b = ceil_index(
        c,
        if pos + window < n {
            pos + window
        } else {
            n
        },
    );
    (if a > 0 {
        "..."@
    } else {
        ""@
    }) + c.subrange(a, b)
}

/// The snippet of a text `c` whose lowercase form is `l`, for lowered
/// keywords `lks`.
pub open spec fn highlight_snippet(
    c: Seq<char>,
    l: Seq<char>,
    lks: Seq<Seq<char>>,
    window: int,
) -> Seq<char> {
    context_snippet(
        c,
        match earliest(l, lks) {
            Some(p) => p,
            None => 0,
        },
        window,
    )
}

/// A keyword of `klen` bytes marked with `[[` `]]` at byte `p` of `c`,
/// with 20 bytes of context before and 40 after, widened to character
/// boundaries, and `...` where the context does not reach an end.
pub open spec fn marked_match(c: Seq<char>, p: int, klen: int) -> Seq<char> {
    let n = byte_len(c) as int;
    let a = floor_index(
        c,
        if p >= 20 {
            p - 20
        } else {
            0
        },
    );
    let b = ceil_index(
        c,
        if p + klen + 40 < n {
            p + klen + 40
        } else {
            n
        },
    );
    let i = floor_index(c, p);
    let j = floor_index(c, p + klen);
    (if a > 0 {
        "..."@
    } else {
        ""@
    }) + c.subrange(a, i) + "[["@ + c.subrange(i, j) + "]]"@ + c.subrange(j, b) + (if b
        < c.len() {
        "..."@
    } else {
        ""@
    })
}

/// Marking at byte `p` a keyword of `klen` bytes stays inside `c`, on
/// character boundaries, without overflow (else slicing the text panics).
pub open spec fn markable(c: Seq<char>, p: int, klen: int) -> bool {
    &&& p + klen + 40 <= usize::MAX
    &&& p + klen <= byte_len(c)
    &&& byte_len(c.take(floor_index(c, p))) == p
    &&& byte_len(c.take(floor_index(c, p + klen))) == p + klen
}

/// The marked match of each keyword `ks[i]` whose lowered form `lks[i]`
/// occurs in the lowered text `l`, in keyword order.
pub open spec fn marked_all(
    c: Seq<char>,
    l: Seq<char>,
    ks: Seq<Seq<char>>,
    lks: Seq<Seq<char>>,
) -> Seq<Seq<char>>
    decreases ks.len(),
{
    if ks.len() == 0 || lks.len() == 0 {
        Seq::empty()
    } else {
        let before = marked_all(c, l, ks.drop_last(), lks.drop_last());
        match find_byte(l, lks.last()) {
            Some(p) => before.push(marked_match(c, p, byte_len(ks.last()) as int)),
            None => before,
        }
    }
}

/// At most the first five of them.
pub open spec fn first_five(s: Seq<Seq<char>>) -> Seq<Seq<char>> {
    if s.len() <= 5 {
        s
    } else {
        s.take(5)
    }
}

/// The highlight list never slices the text where it would panic: every
/// keyword looked at (those before five highlights are made) that matches
/// can be marked.
pub open spec fn highlights_safe(
    c: Seq<char>,
    l: Seq<char>,
    ks: Seq<Seq<char>>,
    lks: Seq<Seq<char>>,
) -> bool {
    forall|i: int|
        0 <= i < ks.len() && marked_all(c, l, ks.take(i), lks.take(i)).len() < 5 ==> match
            #[trigger] find_byte(l, lks[i]) {
            Some(p) => markable(c, p, byte_len(ks[i]) as int),
            None => true,
        }
}

/// The snippet window around the earliest match does not overflow.
pub open spec fn window_safe(l: Seq<char>, lks: Seq<Seq<char>>, window: int) -> bool {
    match earliest(l, lks) {
        Some(p) => p + window <= usize::MAX,
        None => true,
    }
}

proof fn lemma_marked_prefix(
    c: Seq<char>,
    l: Seq<char>,
    ks: Seq<Seq<char>>,
    lks: Seq<Seq<char>>,
    i: int,
)
    requires
        0 <= i <= ks.len(),
        ks.len() == lks.len(),
    ensures
        marked_all(c, l, ks.take(i), lks.take(i)).len() <= marked_all(c, l, ks, lks).len(),
        marked_all(c, l, ks.take(i), lks.take(i)) == marked_all(c, l, ks, lks).take(
            marked_all(c, l, ks.take(i), lks.take(i)).len() as int,
        ),
    decreases ks.len(),
{
    if i == ks.len() {
        assert(ks.take(i) == ks);
        assert(lks.take(i) == lks);
    } else {
        assert(ks.drop_last().take(i) == ks.take(i));
        assert(lks.drop_last().take(i) == lks.take(i));
        lemma_marked_prefix(c, l, ks.drop_last(), lks.drop_last(), i);
    }
}

fn blank_controls(s: &str) -> (v: Vec<char>)
    ensures
        v@ == blanked(s@),
{
    let cs = chars_of(s);
    let mut v: Vec<char> = Vec::new();
    let mut i: usize = 0;
    while i < cs.len()
        invariant
            i <= cs@.len(),
            v@ == cs@.take(i as int).map_values(|c: char| blank_control(c)),
        decreases cs@.len() - i,
    {
        let c = cs[i];
        if is_control(c) && c != '\n' && c != '\t' {
            v.push(' ');
        } else {
            v.push(c);
        }
        assert(cs@.take(i + 1).map_values(|c: char| blank_control(c)) == cs@.take(
            i as int,
        ).map_values(|c: char| blank_control(c)).push(blank_control(c)));
        i += 1;
    }
    assert(cs@.take(cs@.len() as int) == cs@);
    v
}

/// Byte offset of the first occurrence of `pat` in `s`.
fn locate(s: &Vec<char>, pat: &str) -> (r: Option<u128>)
    ensures
        match r {
            Some(p) => find_byte(s@, pat@) == Some(p as int),
            None => find_byte(s@, pat@) is None,
        },
        r matches Some(p) ==> p <= 4 * usize::MAX,
{
    let pv = chars_of(pat);
    match find_chars(s, &pv) {
        Some(k) => {
            proof {
                let c = choose|m: int| first_match(s@, pat@, m);
                crate::text::lemma_first_match_unique(s@, pat@, c, k as int);
            }
            Some(bytes_before(s, k))
        },
        None => {
            proof {
                assert forall|m: int| !first_match(s@, pat@, m) by {
                    if first_match(s@, pat@, m) {
                        assert(matches_at(s@, m, pat@));
                    }
                }
            }
            None
        },
    }
}

fn mark_match(cv: &Vec<char>, n: u128, p: u128, klen: u128) -> (r: String)
    requires
        n == byte_len(cv@),
        markable(cv@, p as int, klen as int),
    ensures
        r@ == marked_match(cv@, p as int, klen as int),
{
    let hs = if p >= 20 {
        p - 20
    } else {
        0
    };
    let q = p + klen;
    let he = if q + 40 < n {
        q + 40
    } else {
        n
    };
    let a = floor_char(cv, hs);
    let b = ceil_char(cv, he);
    let i = floor_char(cv, p);
    let j = floor_char(cv, q);
    proof {
        lemma_floor_monotone(cv@, hs as int, p as int);
        lemma_floor_monotone(cv@, p as int, q as int);
        lemma_floor_ceil(cv@, q as int, he as int);
    }
    let mut r = if a > 0 {
        owned("...")
    } else {
        String::new()
    };
    let before = string_from_range(cv, a, i);
    push_str(&mut r, before.as_str());
    push_str(&mut r, "[[");
    let word = string_from_range(cv, i, j);
    push_str(&mut r, word.as_str());
    push_str(&mut r, "]]");
    let after = string_from_range(cv, j, b);
    push_str(&mut r, after.as_str());
    if b < cv.len() {
        push_str(&mut r, "...");
    }
    proof {
        reveal_strlit("");
        assert(""@ + cv@.subrange(a as int, i as int) == cv@.subrange(a as int, i as int));
    }
    r
}

/// The earliest byte offset at which one of the lowered keywords occurs.
fn earliest_match(lv: &Vec<char>, lowered_keywords: &Vec<String>) -> (r: Option<u128>)
    ensures
        match r {
            Some(p) => earliest(lv@, lowered_keywords.deep_view()) == Some(p as int),
            None => earliest(lv@, lowered_keywords.deep_view()) is None,
        },
        r matches Some(p) ==> p <= 4 * usize::MAX,
{
    let ghost lks = lowered_keywords.deep_view();
    let mut best: Option<u128> = None;
    let mut i: usize = 0;
    while i < lowered_keywords.len()
        invariant
            i <= lks.len(),
            lks == lowered_keywords.deep_view(),
            match best {
                    Some(p) => earliest(lv@, lks.take(i as int)) == Some(p as int),
                None => earliest(lv@, lks.take(i as int)) is None,
            },
            best matches Some(p) ==> p <= 4 * usize::MAX,
        decreases lks.len() - i,
    {
        proof {
            assert(lks.take(i + 1).drop_last() == lks.take(i as int));
            assert(lks[i as int] == lowered_keywords@[i as int]@);
        }
        match locate(lv, lowered_keywords[i].as_str()) {
            Some(p) => {
                best = match best {
                    Some(q) => Some(
                        if q <= p {
                            q
                        } else {
                            p
                        },
                    ),
                    None => Some(p),
                };
            },
            None => {},
        }
        i += 1;
    }
    assert(lks.take(lks.len() as int) == lks);
    best
}

fn context_of(cv: &Vec<char>, n: u128, pos: u128, window: usize) -> (r: String)
    requires
        n == byte_len(cv@),
        pos + window <= usize::MAX,
    ensures
        r@ == context_snippet(cv@, pos as int, window as int),
{
    let w = window as u128;
    let start = if pos >= w {
        pos - w
    } else {
        0
    };
    let end = if pos + w < n {
        pos + w
    } else {
        n
    };
    let a = floor_char(cv, start);
    let b = ceil_char(cv, end);
    proof {
        if start <= end {
            lemma_floor_ceil(cv@, start as int, end as int);
        } else {
            assert(cv@.take(cv@.len() as int) == cv@);
            lemma_floor_unique(cv@, start as int, cv@.len() as int);
            lemma_floor_at(cv@, cv@.len() as int);
        }
    }
    let mut snippet = if a > 0 {
        owned("...")
    } else {
        String::new()
    };
    let body = string_from_range(cv, a, b);
    push_str(&mut snippet, body.as_str());
    proof {
        reveal_strlit("");
        assert(""@ + cv@.subrange(a as int, b as int) == cv@.subrange(a as int, b as int));
    }
    snippet
}

fn marks_of(
    cv: &Vec<char>,
    n: u128,
    lv: &Vec<char>,
    keywords: &Vec<String>,
    lowered_keywords: &Vec<String>,
) -> (marks: Vec<String>)
    requires
        n == byte_len(cv@),
        lowered_keywords@.len() == keywords@.len(),
        highlights_safe(cv@, lv@, keywords.deep_view(), lowered_keywords.deep_view()),
    ensures
        marks.deep_view() == first_five(
            marked_all(cv@, lv@, keywords.deep_view(), lowered_keywords.deep_view()),
        ),
{
    let ghost ks = keywords.deep_view();
    let ghost lks = lowered_keywords.deep_view();
    let mut marks: Vec<String> = Vec::new();
    let mut i: usize = 0;
    while i < keywords.len() && marks.len() < 5
        invariant
            i <= ks.len(),
            ks.len() == lks.len(),
            ks == keywords.deep_view(),
            lks == lowered_keywords.deep_view(),
            n == byte_len(cv@),
            highlights_safe(cv@, lv@, ks, lks),
            marks.deep_view() == marked_all(cv@, lv@, ks.take(i as int), lks.take(i as int)),
            marks@.len() <= 5,
        decreases ks.len() - i,
    {
        proof {
            assert(ks.take(i + 1).drop_last() == ks.take(i as int));
            assert(lks.take(i + 1).drop_last() == lks.take(i as int));
            assert(lks[i as int] == lowered_keywords@[i as int]@);
            assert(ks[i as int] == keywords@[i as int]@);
        }
        match locate(lv, lowered_keywords[i].as_str()) {
            Some(p) => {
                let kv = chars_of(keywords[i].as_str());
                let klen = bytes_before(&kv, kv.len());
                assert(kv@.take(kv@.len() as int) == kv@);
                let m = mark_match(cv, n, p, klen);
                marks.push(m);
            },
            None => {},
        }
        i += 1;
    }
    proof {
        lemma_marked_prefix(cv@, lv@, ks, lks, i as int);
        assert(ks.take(ks.len() as int) == ks);
        assert(lks.take(lks.len() as int) == lks);
    }
    marks
}

/// The highlighted snippet of a text, given the lowercase form `lowered`
/// of its text with control characters blanked and the lowercase form of
/// each keyword: the context of `window` bytes around the earliest keyword
/// match, and a marked context for each of the first five keywords found.
/// Offsets found in the lowered text are applied to the text itself.
pub fn highlight_parts(
    content: &str,
    lowered: &str,
    keywords: &Vec<String>,
    lowered_keywords: &Vec<String>,
    window: usize,
) -> (r: (String, Vec<String>))
    requires
        lowered_keywords@.len() == keywords@.len(),
        window_safe(lowered@, lowered_keywords.deep_view(), window as int),
        highlights_safe(
            blanked(content@),
            lowered@,
            keywords.deep_view(),
            lowered_keywords.deep_view(),
        ),
    ensures
        r.0@ == highlight_snippet(
            blanked(content@),
            lowered@,
            lowered_keywords.deep_view(),
            window as int,
        ),
        r.1.deep_view() == first_five(
            marked_all(
                blanked(content@),
                lowered@,
                keywords.deep_view(),
                lowered_keywords.deep_view(),
            ),
        ),
        r.1@.len() <= 5,
{
    let cv = blank_controls(content);
    let lv = chars_of(lowered);
    let n = bytes_before(&cv, cv.len());
    assert(cv@.take(cv@.len() as int) == cv@);
    let pos: u128 = match earliest_match(&lv, lowered_keywords) {
        Some(p) => p,
        None => 0,
    };
    let snippet = context_of(&cv, n, pos, window);
    let marks = marks_of(&cv, n, &lv, keywords, lowered_keywords);
    (snippet, marks)
}

/// The lowercase form of each keyword.
pub open spec fn lowered_all(ks: Seq<Seq<char>>) -> Seq<Seq<char>> {
    ks.map_values(|k: Seq<char>| lowercase(k))
}

fn lower_all(keywords: &Vec<String>) -> (r: Vec<String>)
    ensures
        r.deep_view() == lowered_all(keywords.deep_view()),
        forall|j: int| 0 <= j < keywords@.len() ==> lowercase_known(#[trigger] keywords@[j]@),
{
    let ghost ks = keywords.deep_view();
    let mut r: Vec<String> = Vec::new();
    let mut i: usize = 0;
    while i < keywords.len()
        invariant
            i <= ks.len(),
            ks == keywords.deep_view(),
            r.deep_view() == lowered_all(ks.take(i as int)),
            forall|j: int| 0 <= j < i ==> lowercase_known(#[trigger] keywords@[j]@),
        decreases ks.len() - i,
    {
        let lk = to_lowercase(keywords[i].as_str());
        assert(lowercase_known(keywords@[i as int]@));
        proof {
            assert(ks[i as int] == keywords@[i as int]@);
            assert(lowered_all(ks.take(i + 1)) == lowered_all(ks.take(i as int)).push(
                lowercase(ks[i as int]),
            ));
        }
        r.push(lk);
        i += 1;
    }
    assert(ks.take(ks.len() as int) == ks);
    r
}

/// Whether every keyword looked at for highlights can be marked.
fn marks_safe(
    cv: &Vec<char>,
    n: u128,
    lv: &Vec<char>,
    keywords: &Vec<String>,
    lowered_keywords: &Vec<String>,
) -> (b: bool)
    requires
        n == byte_len(cv@),
        lowered_keywords@.len() == keywords@.len(),
    ensures
        b == highlights_safe(cv@, lv@, keywords.deep_view(), lowered_keywords.deep_view()),
{
    let ghost ks = keywords.deep_view();
    let ghost lks = lowered_keywords.deep_view();
    let mut count: usize = 0;
    let mut i: usize = 0;
    while i < keywords.len() && count < 5
        invariant
            i <= ks.len(),
            ks.len() == lks.len(),
            ks == keywords.deep_view(),
            lks == lowered_keywords.deep_view(),
            n == byte_len(cv@),
            count == marked_all(cv@, lv@, ks.take(i as int), lks.take(i as int)).len(),
            count <= 5,
            forall|j: int|
                0 <= j < i && marked_all(cv@, lv@, ks.take(j), lks.take(j)).len() < 5 ==> match
                    #[trigger] find_byte(lv@, lks[j]) {
                    Some(p) => markable(cv@, p, byte_len(ks[j]) as int),
                    None => true,
                },
        decreases ks.len() - i,
    {
        proof {
            assert(ks.take(i + 1).drop_last() == ks.take(i as int));
            assert(lks.take(i + 1).drop_last() == lks.take(i as int));
            assert(lks[i as int] == lowered_keywords@[i as int]@);
            assert(ks[i as int] == keywords@[i as int]@);
        }
        match locate(lv, lowered_keywords[i].as_str()) {
            Some(p) => {
                let kv = chars_of(keywords[i].as_str());
                let klen = bytes_before(&kv, kv.len());
                assert(kv@.take(kv@.len() as int) == kv@);
                let q = p + klen;
                if q + 40 > usize::MAX as u128 || q > n {
                    return false;
                }
                let fp = floor_char(cv, p);
                let fq = floor_char(cv, q);
                if bytes_before(cv, fp) != p || bytes_before(cv, fq) != q {
                    return false;
                }
                count += 1;
            },
            None => {},
        }
        i += 1;
    }
    proof {
        assert forall|j: int|
            0 <= j < ks.len() && marked_all(cv@, lv@, ks.take(j), lks.take(j)).len()
                < 5 implies match #[trigger] find_byte(lv@, lks[j]) {
            Some(p) => markable(cv@, p, byte_len(ks[j]) as int),
            None => true,
        } by {
            if j >= i {
                assert(ks.take(j).take(i as int) == ks.take(i as int));
                assert(lks.take(j).take(i as int) == lks.take(i as int));
                lemma_marked_prefix(cv@, lv@, ks.take(j), lks.take(j), i as int);
            }
        }
    }
    true
}

/// The highlighted snippet of a document's text for the search keywords:
/// control characters (but line feeds and tabs) shown as spaces, the
/// context of `window` bytes around the earliest match of a keyword in the
/// lowercase text, and the marked context of each of the first five
/// keywords found.
pub fn build_highlight_snippet(content: &str, keywords: &Vec<String>, window: usize) -> (r: (
    String,
    Vec<String>,
))
    requires
        window_safe(
            lowercase(blanked(content@)),
            lowered_all(keywords.deep_view()),
            window as int,
        ),
        highlights_safe(
            blanked(content@),
            lowercase(blanked(content@)),
            keywords.deep_view(),
            lowered_all(keywords.deep_view()),
        ),
    ensures
        r.0@ == highlight_snippet(
            blanked(content@),
            lowercase(blanked(content@)),
            lowered_all(keywords.deep_view()),
            window as int,
        ),
        r.1.deep_view() == first_five(
            marked_all(
                blanked(content@),
                lowercase(blanked(content@)),
                keywords.deep_view(),
                lowered_all(keywords.deep_view()),
            ),
        ),
        r.1@.len() <= 5,
{
    let cv = blank_controls(content);
    let clean = string_from_chars(&cv);
    let lowered = to_lowercase(clean.as_str());
    let lks = lower_all(keywords);
    highlight_parts(content, lowered.as_str(), keywords, &lks, window)
}

/// The highlighted snippet, or `None` where building it would slice the
/// text off a character boundary or overflow.
pub fn checked_highlight_snippet(content: &str, keywords: &Vec<String>, window: usize) -> (r:
    Option<(String, Vec<String>)>)
    ensures
        r is Some <==> window_safe(
            lowercase(blanked(content@)),
            lowered_all(keywords.deep_view()),
            window as int,
        ) && highlights_safe(
            blanked(content@),
            lowercase(blanked(content@)),
            keywords.deep_view(),
            lowered_all(keywords.deep_view()),
        ),
        r matches Some(x) ==> x.0@ == highlight_snippet(
            blanked(content@),
            lowercase(blanked(content@)),
            lowered_all(keywords.deep_view()),
            window as int,
        ) && x.1.deep_view() == first_five(
            marked_all(
                blanked(content@),
                lowercase(blanked(content@)),
                keywords.deep_view(),
                lowered_all(keywords.deep_view()),
            ),
        ),
        lowercase_known(blanked(content@)),
        forall|j: int| 0 <= j < keywords@.len() ==> lowercase_known(#[trigger] keywords@[j]@),
{
    let cv = blank_controls(content);
    let clean = string_from_chars(&cv);
    let lowered = to_lowercase(clean.as_str());
    let lks = lower_all(keywords);
    let lv = chars_of(lowered.as_str());
    let n = bytes_before(&cv, cv.len());
    assert(cv@.take(cv@.len() as int) == cv@);
    let window_ok = match earliest_match(&lv, &lks) {
        Some(p) => p + window as u128 <= usize::MAX as u128,
        None => true,
    };
    if !window_ok || !marks_safe(&cv, n, &lv, keywords, &lks) {
        return None;
    }
    Some(build_highlight_snippet(content, keywords, window))
}

// ───────────────────────── result texts ─────────────────────────

/// The texts shown with a search result.
#[derive(Debug)]
pub struct ResultText {
    pub snippet: String,
    pub highlights: Vec<String>,
    pub modified: String,
    pub size_formatted: String,
}

/// Whether the snippet of a result can be built without slicing its text
/// off a character boundary: only the highlighted snippet, built when asked
/// for with keywords, can fail; the plain one always succeeds.
pub open spec fn result_snippet_safe(
    content: Seq<char>,
    ks: Seq<Seq<char>>,
    highlight: bool,
    window: int,
) -> bool {
    if highlight && ks.len() > 0 {
        window_safe(lowercase(blanked(content)), lowered_all(ks), window) && highlights_safe(
            blanked(content),
            lowercase(blanked(content)),
            ks,
            lowered_all(ks),
        )
    } else {
        true
    }
}

/// The texts of a result: its snippet (highlighted when asked for and
/// there are keywords, else the plain snippet of 200 characters with no
/// highlights), modification time and size; `None` where the snippet
/// cannot be built.
pub fn result_text(
    content: &str,
    keywords: &Vec<String>,
    highlight: bool,
    window: usize,
    modified_ts: i64,
    size_bytes: u64,
) -> (r: Option<ResultText>)
    ensures
        r is Some <==> result_snippet_safe(
            content@,
            keywords.deep_view(),
            highlight,
            window as int,
        ),
        r matches Some(t) ==> {
            &&& t.modified@ == crate::search::modified_display(modified_ts)
            &&& t.size_formatted@ == crate::search::size_text(size_bytes as nat)
            &&& if highlight && keywords@.len() > 0 {
                &&& t.snippet@ == highlight_snippet(
                    blanked(content@),
                    lowercase(blanked(content@)),
                    lowered_all(keywords.deep_view()),
                    window as int,
                )
                &&& t.highlights.deep_view() == first_five(
                    marked_all(
                        blanked(content@),
                        lowercase(blanked(content@)),
                        keywords.deep_view(),
                        lowered_all(keywords.deep_view()),
                    ),
                )
            } else {
                &&& t.snippet@ == plain_snippet(content@, 200)
                &&& t.highlights@.len() == 0
            }
        },
{
    let (snippet, highlights) = if highlight && keywords.len() > 0 {
        match checked_highlight_snippet(content, keywords, window) {
            Some(parts) => parts,
            None => return None,
        }
    } else {
        (truncate_snippet(content, 200), Vec::new())
    };
    Some(
        ResultText {
            snippet,
            highlights,
            modified: crate::search::modified_text(modified_ts),
            size_formatted: crate::search::format_size(size_bytes),
        },
    )
}

} // verus!
