//! Reading the text out of documents: markup stripping, PDF text
//! operators, encodings, and which reader a file type goes to.
use vstd::prelude::*;
use crate::text::{
    decimal, ends_with, ends_with_str, is_blank, push_decimal, trim, trim_str, find_chars,
    first_match, string_from_range, ascii_lower, chars_of, contains, contains_str, equals_str,
    lowercase, owned, push_char, push_str, starts_with, to_ascii_lower, to_lowercase, match_at,
    matches_at,
};

verus! {

// ───────────────────────── markup ─────────────────────────

/// Text read so far from XML, and whether a tag is open.
pub open spec fn xml_state(s: Seq<char>) -> (Seq<char>, bool)
    decreases s.len(),
{
    if s.len() == 0 {
        (seq![], false)
    } else {
        let (out, in_tag) = xml_state(s.drop_last());
        let c = s.last();
        if c == '<' {
            (out, true)
        } else if c == '>' {
            (out, false)
        } else if !in_tag {
            (out.push(c), in_tag)
        } else {
            (out, in_tag)
        }
    }
}

/// The text of XML: every character outside `<...>`.
pub open spec fn xml_text(s: Seq<char>) -> Seq<char> {
    xml_state(s).0
}

/// No angle bracket in `s`.
pub open spec fn bracket_free(s: Seq<char>) -> bool {
    forall|i: int| 0 <= i < s.len() ==> #[trigger] s[i] != '<' && s[i] != '>'
}

proof fn lemma_xml_state_bracket_free(s: Seq<char>)
    ensures
        bracket_free(xml_state(s).0),
    decreases s.len(),
{
    if s.len() > 0 {
        lemma_xml_state_bracket_free(s.drop_last());
    }
}

proof fn lemma_xml_state_of_text(t: Seq<char>)
    requires
        bracket_free(t),
    ensures
        xml_state(t) == (t, false),
    decreases t.len(),
{
    if t.len() > 0 {
        assert(bracket_free(t.drop_last())) by {
            assert forall|i: int| 0 <= i < t.drop_last().len() implies #[trigger] t.drop_last()[i]
                != '<' && t.drop_last()[i] != '>' by {
                assert(t.drop_last()[i] == t[i]);
            }
        }
        lemma_xml_state_of_text(t.drop_last());
        assert(t.last() == t[t.len() - 1]);
        assert(t.drop_last().push(t.last()) == t);
    }
}

/// `idx` picks `t` out of `s`: increasing positions of `s` whose
/// characters, in order, are `t`.
pub open spec fn picks(idx: Seq<int>, t: Seq<char>, s: Seq<char>) -> bool {
    &&& idx.len() == t.len()
    &&& forall|i: int, j: int| 0 <= i < j < idx.len() ==> idx[i] < idx[j]
    &&& forall|i: int| 0 <= i < idx.len() ==> 0 <= #[trigger] idx[i] < s.len() && t[i] == s[idx[i]]
}

/// `t` is a subsequence of `s`.
pub open spec fn is_subsequence(t: Seq<char>, s: Seq<char>) -> bool {
    exists|idx: Seq<int>| picks(idx, t, s)
}

proof fn lemma_xml_state_picks(s: Seq<char>) -> (idx: Seq<int>)
    ensures
        picks(idx, xml_state(s).0, s),
    decreases s.len(),
{
    if s.len() == 0 {
        seq![]
    } else {
        let prev = lemma_xml_state_picks(s.drop_last());
        let (out, in_tag) = xml_state(s.drop_last());
        let c = s.last();
        assert forall|k: int| 0 <= k < s.len() - 1 implies #[trigger] s.drop_last()[k] == s[k] by {}
        if c != '<' && c != '>' && !in_tag {
            let idx = prev.push(s.len() - 1);
            assert(xml_state(s).0 == out.push(c));
            assert forall|i: int| 0 <= i < idx.len() implies 0 <= #[trigger] idx[i] < s.len()
                && out.push(c)[i] == s[idx[i]] by {
                if i < prev.len() {
                    assert(idx[i] == prev[i]);
                    assert(s.drop_last()[prev[i]] == s[prev[i]]);
                }
            }
            idx
        } else {
            assert(xml_state(s).0 == out);
            assert forall|i: int| 0 <= i < prev.len() implies 0 <= #[trigger] prev[i] < s.len()
                && out[i] == s[prev[i]] by {
                assert(s.drop_last()[prev[i]] == s[prev[i]]);
            }
            prev
        }
    }
}

/// Stripping tags keeps characters of the input in their order, leaves no
/// angle bracket, and stripping again changes nothing.
pub proof fn law_strip_xml_tags(s: Seq<char>)
    ensures
        is_subsequence(xml_text(s), s),
        bracket_free(xml_text(s)),
        xml_text(xml_text(s)) == xml_text(s),
{
    let idx = lemma_xml_state_picks(s);
    assert(picks(idx, xml_text(s), s));
    lemma_xml_state_bracket_free(s);
    lemma_xml_state_of_text(xml_text(s));
}

/// Strips XML/HTML tags, keeping the text between them.
pub fn strip_xml_tags(input: &str) -> (r: String)
    ensures
        r@ == xml_text(input@),
{
    let v = chars_of(input);
    let mut out = String::new();
    let mut in_tag = false;
    let mut i: usize = 0;
    while i < v.len()
        invariant
            i <= v@.len(),
            (out@, in_tag) == xml_state(v@.take(i as int)),
        decreases v@.len() - i,
    {
        let c = v[i];
        assert(v@.take(i + 1).drop_last() == v@.take(i as int));
        assert(v@.take(i + 1).last() == c);
        if c == '<' {
            in_tag = true;
        } else if c == '>' {
            in_tag = false;
        } else if !in_tag {
            push_char(&mut out, c);
        }
        i += 1;
    }
    assert(v@.take(i as int) == v@);
    out
}

/// Reading state of HTML.
pub struct HtmlState {
    pub out: Seq<char>,
    pub in_tag: bool,
    pub in_script: bool,
    pub in_style: bool,
    pub tag: Seq<char>,
}

/// The HTML reading state after closing a tag whose lowercased text is `t`.
pub open spec fn close_tag(st: HtmlState, t: Seq<char>) -> HtmlState {
    let (script, style) = if starts_with(t, "script"@) {
        (true, st.in_style)
    } else if t == "/script"@ {
        (false, st.in_style)
    } else if starts_with(t, "style"@) {
        (st.in_script, true)
    } else if t == "/style"@ {
        (st.in_script, false)
    } else {
        (st.in_script, st.in_style)
    };
    let out = if t == "br"@ || t == "br/"@ || t == "p"@ || t == "/p"@ {
        st.out.push('\n')
    } else {
        st.out
    };
    HtmlState { out, in_tag: false, in_script: script, in_style: style, tag: st.tag }
}

pub open spec fn html_state(s: Seq<char>) -> HtmlState
    decreases s.len(),
{
    if s.len() == 0 {
        HtmlState { out: seq![], in_tag: false, in_script: false, in_style: false, tag: seq![] }
    } else {
        let st = html_state(s.drop_last());
        let c = s.last();
        if c == '<' {
            HtmlState { in_tag: true, tag: seq![], ..st }
        } else if c == '>' && st.in_tag {
            close_tag(st, lowercase(st.tag))
        } else if st.in_tag {
            HtmlState { tag: st.tag.push(ascii_lower(c)), ..st }
        } else if !st.in_script && !st.in_style {
            HtmlState { out: st.out.push(c), ..st }
        } else {
            st
        }
    }
}

pub open spec fn amp_entity() -> Seq<char> {
    seq!['&', 'a', 'm', 'p', ';']
}

pub open spec fn lt_entity() -> Seq<char> {
    seq!['&', 'l', 't', ';']
}

pub open spec fn gt_entity() -> Seq<char> {
    seq!['&', 'g', 't', ';']
}

pub open spec fn quot_entity() -> Seq<char> {
    seq!['&', 'q', 'u', 'o', 't', ';']
}

pub open spec fn apos_entity() -> Seq<char> {
    seq!['&', 'a', 'p', 'o', 's', ';']
}

pub open spec fn nbsp_entity() -> Seq<char> {
    seq!['&', 'n', 'b', 's', 'p', ';']
}

/// Length of the entity that starts at `i`, or 0 when none does.
pub open spec fn entity_len(s: Seq<char>, i: int) -> int {
    if matches_at(s, i, amp_entity()) {
        5
    } else if matches_at(s, i, lt_entity()) {
        4
    } else if matches_at(s, i, gt_entity()) {
        4
    } else if matches_at(s, i, quot_entity()) {
        6
    } else if matches_at(s, i, apos_entity()) {
        6
    } else if matches_at(s, i, nbsp_entity()) {
        6
    } else {
        0
    }
}

/// The character the entity that starts at `i` stands for.
pub open spec fn entity_char(s: Seq<char>, i: int) -> char {
    if matches_at(s, i, amp_entity()) {
        '&'
    } else if matches_at(s, i, lt_entity()) {
        '<'
    } else if matches_at(s, i, gt_entity()) {
        '>'
    } else if matches_at(s, i, quot_entity()) {
        '"'
    } else if matches_at(s, i, apos_entity()) {
        '\''
    } else {
        ' '
    }
}

/// `s[i..]` with its entities decoded in one pass from the left: each
/// `&amp;`, `&lt;`, `&gt;`, `&quot;`, `&apos;` and `&nbsp;` becomes its
/// character, and the text that results is not read again.
pub open spec fn decode_from(s: Seq<char>, i: int) -> Seq<char>
    decreases s.len() - i,
{
    if i < 0 || i >= s.len() {
        seq![]
    } else if entity_len(s, i) > 0 {
        seq![entity_char(s, i)] + decode_from(s, i + entity_len(s, i))
    } else {
        seq![s[i]] + decode_from(s, i + 1)
    }
}

/// The common HTML entities decoded, each once.
pub open spec fn decode_entities(s: Seq<char>) -> Seq<char> {
    decode_from(s, 0)
}

proof fn lemma_decode_shift(p: Seq<char>, s: Seq<char>, i: int)
    requires
        0 <= i,
    ensures
        decode_from(p + s, p.len() + i) == decode_from(s, i),
    decreases s.len() - i,
{
    let t = p + s;
    let j = p.len() + i;
    if i < s.len() {
        assert forall|e: Seq<char>| #[trigger] matches_at(t, j, e) == matches_at(s, i, e) by {
            if j + e.len() <= t.len() {
                assert(t.subrange(j, j + e.len()) =~= s.subrange(i, i + e.len()));
            }
        }
        assert(t[j] == s[i]);
        if entity_len(s, i) > 0 {
            lemma_decode_shift(p, s, i + entity_len(s, i));
        } else {
            lemma_decode_shift(p, s, i + 1);
        }
    }
}

proof fn lemma_decode_plain(s: Seq<char>, i: int)
    requires
        0 <= i,
        forall|k: int| 0 <= k < s.len() ==> #[trigger] s[k] != '&',
    ensures
        decode_from(s, i) == s.subrange(i, s.len() as int) || i > s.len(),
    decreases s.len() - i,
{
    if i < s.len() {
        assert(!matches_at(s, i, amp_entity())) by {
            if matches_at(s, i, amp_entity()) {
                assert(s.subrange(i, i + 5)[0] == s[i]);
            }
        }
        assert(!matches_at(s, i, lt_entity())) by {
            if matches_at(s, i, lt_entity()) {
                assert(s.subrange(i, i + 4)[0] == s[i]);
            }
        }
        assert(!matches_at(s, i, gt_entity())) by {
            if matches_at(s, i, gt_entity()) {
                assert(s.subrange(i, i + 4)[0] == s[i]);
            }
        }
        assert(!matches_at(s, i, quot_entity())) by {
            if matches_at(s, i, quot_entity()) {
                assert(s.subrange(i, i + 6)[0] == s[i]);
            }
        }
        assert(!matches_at(s, i, apos_entity())) by {
            if matches_at(s, i, apos_entity()) {
                assert(s.subrange(i, i + 6)[0] == s[i]);
            }
        }
        assert(!matches_at(s, i, nbsp_entity())) by {
            if matches_at(s, i, nbsp_entity()) {
                assert(s.subrange(i, i + 6)[0] == s[i]);
            }
        }
        lemma_decode_plain(s, i + 1);
        assert(seq![s[i]] + s.subrange(i + 1, s.len() as int) =~= s.subrange(i, s.len() as int));
    } else if i == s.len() {
        assert(s.subrange(i, s.len() as int) =~= Seq::<char>::empty());
    }
}

proof fn lemma_decode_entity(e: Seq<char>, c: char, s: Seq<char>)
    requires
        e.len() > 0,
        matches_at(e + s, 0, e),
        entity_len(e + s, 0) == e.len(),
        entity_char(e + s, 0) == c,
    ensures
        decode_entities(e + s) == seq![c] + decode_entities(s),
{
    lemma_decode_shift(e, s, 0);
}

/// Entities are decoded once each: text without `&` is left as it is, and
/// each of `&amp;`, `&lt;`, `&gt;`, `&quot;`, `&apos;` and `&nbsp;` at the
/// start becomes its character (`&`, `<`, `>`, `"`, `'` and a space) while
/// the rest is decoded on its own, whatever it holds.
pub proof fn law_entities_decoded_once(s: Seq<char>)
    ensures
        (forall|k: int| 0 <= k < s.len() ==> #[trigger] s[k] != '&') ==> decode_entities(s) == s,
        decode_entities(seq!['&', 'a', 'm', 'p', ';'] + s) == seq!['&'] + decode_entities(s),
        decode_entities(seq!['&', 'l', 't', ';'] + s) == seq!['<'] + decode_entities(s),
        decode_entities(seq!['&', 'g', 't', ';'] + s) == seq!['>'] + decode_entities(s),
        decode_entities(seq!['&', 'q', 'u', 'o', 't', ';'] + s) == seq!['"'] + decode_entities(s),
        decode_entities(seq!['&', 'a', 'p', 'o', 's', ';'] + s) == seq!['\''] + decode_entities(s),
        decode_entities(seq!['&', 'n', 'b', 's', 'p', ';'] + s) == seq![' '] + decode_entities(s),
{
    if forall|k: int| 0 <= k < s.len() ==> #[trigger] s[k] != '&' {
        lemma_decode_plain(s, 0);
        assert(s.subrange(0, s.len() as int) =~= s);
    }
    let t = amp_entity() + s;
    assert(t.subrange(0, 5) =~= amp_entity());
    lemma_decode_entity(amp_entity(), '&', s);
    let t = lt_entity() + s;
    assert(t.subrange(0, 4) =~= lt_entity());
    assert(!matches_at(t, 0, amp_entity())) by {
        if matches_at(t, 0, amp_entity()) {
            assert(t.subrange(0, 5)[1] == t[1]);
        }
    }
    lemma_decode_entity(lt_entity(), '<', s);
    let t = gt_entity() + s;
    assert(t.subrange(0, 4) =~= gt_entity());
    assert(!matches_at(t, 0, amp_entity())) by {
        if matches_at(t, 0, amp_entity()) {
            assert(t.subrange(0, 5)[1] == t[1]);
        }
    }
    assert(!matches_at(t, 0, lt_entity())) by {
        if matches_at(t, 0, lt_entity()) {
            assert(t.subrange(0, 4)[1] == t[1]);
        }
    }
    lemma_decode_entity(gt_entity(), '>', s);
    let t = quot_entity() + s;
    assert(t.subrange(0, 6) =~= quot_entity());
    assert(!matches_at(t, 0, amp_entity())) by {
        if matches_at(t, 0, amp_entity()) {
            assert(t.subrange(0, 5)[1] == t[1]);
        }
    }
    assert(!matches_at(t, 0, lt_entity())) by {
        if matches_at(t, 0, lt_entity()) {
            assert(t.subrange(0, 4)[1] == t[1]);
        }
    }
    assert(!matches_at(t, 0, gt_entity())) by {
        if matches_at(t, 0, gt_entity()) {
            assert(t.subrange(0, 4)[1] == t[1]);
        }
    }
    lemma_decode_entity(quot_entity(), '"', s);
    let t = apos_entity() + s;
    assert(t.subrange(0, 6) =~= apos_entity());
    assert(!matches_at(t, 0, amp_entity())) by {
        if matches_at(t, 0, amp_entity()) {
            assert(t.subrange(0, 5)[2] == t[2]);
        }
    }
    assert(!matches_at(t, 0, lt_entity())) by {
        if matches_at(t, 0, lt_entity()) {
            assert(t.subrange(0, 4)[1] == t[1]);
        }
    }
    assert(!matches_at(t, 0, gt_entity())) by {
        if matches_at(t, 0, gt_entity()) {
            assert(t.subrange(0, 4)[1] == t[1]);
        }
    }
    assert(!matches_at(t, 0, quot_entity())) by {
        if matches_at(t, 0, quot_entity()) {
            assert(t.subrange(0, 6)[1] == t[1]);
        }
    }
    lemma_decode_entity(apos_entity(), '\'', s);
    let t = nbsp_entity() + s;
    assert(t.subrange(0, 6) =~= nbsp_entity());
    assert(!matches_at(t, 0, amp_entity())) by {
        if matches_at(t, 0, amp_entity()) {
            assert(t.subrange(0, 5)[1] == t[1]);
        }
    }
    assert(!matches_at(t, 0, lt_entity())) by {
        if matches_at(t, 0, lt_entity()) {
            assert(t.subrange(0, 4)[1] == t[1]);
        }
    }
    assert(!matches_at(t, 0, gt_entity())) by {
        if matches_at(t, 0, gt_entity()) {
            assert(t.subrange(0, 4)[1] == t[1]);
        }
    }
    assert(!matches_at(t, 0, quot_entity())) by {
        if matches_at(t, 0, quot_entity()) {
            assert(t.subrange(0, 6)[1] == t[1]);
        }
    }
    assert(!matches_at(t, 0, apos_entity())) by {
        if matches_at(t, 0, apos_entity()) {
            assert(t.subrange(0, 6)[1] == t[1]);
        }
    }
    lemma_decode_entity(nbsp_entity(), ' ', s);
}

fn decode_html_entities(s: &str) -> (r: String)
    ensures
        r@ == decode_entities(s@),
{
    let v = chars_of(s);
    let amp: Vec<char> = vec!['&', 'a', 'm', 'p', ';'];
    let lt: Vec<char> = vec!['&', 'l', 't', ';'];
    let gt: Vec<char> = vec!['&', 'g', 't', ';'];
    let quot: Vec<char> = vec!['&', 'q', 'u', 'o', 't', ';'];
    let apos: Vec<char> = vec!['&', 'a', 'p', 'o', 's', ';'];
    let nbsp: Vec<char> = vec!['&', 'n', 'b', 's', 'p', ';'];
    assert(amp@ == amp_entity());
    assert(lt@ == lt_entity());
    assert(gt@ == gt_entity());
    assert(quot@ == quot_entity());
    assert(apos@ == apos_entity());
    assert(nbsp@ == nbsp_entity());
    let mut out = String::new();
    let mut i: usize = 0;
    while i < v.len()
        invariant
            i <= v@.len(),
            amp@ == amp_entity(),
            lt@ == lt_entity(),
            gt@ == gt_entity(),
            quot@ == quot_entity(),
            apos@ == apos_entity(),
            nbsp@ == nbsp_entity(),
            out@ + decode_from(v@, i as int) == decode_from(v@, 0),
        decreases v@.len() - i,
    {
        let ghost before = out@;
        let (n, c): (usize, char) = if match_at(&v, i, &amp) {
            (5, '&')
        } else if match_at(&v, i, &lt) {
            (4, '<')
        } else if match_at(&v, i, &gt) {
            (4, '>')
        } else if match_at(&v, i, &quot) {
            (6, '"')
        } else if match_at(&v, i, &apos) {
            (6, '\'')
        } else if match_at(&v, i, &nbsp) {
            (6, ' ')
        } else {
            (1, v[i])
        };
        push_char(&mut out, c);
        proof {
            if entity_len(v@, i as int) > 0 {
                assert(n as int == entity_len(v@, i as int));
                assert(c == entity_char(v@, i as int));
            }
            assert(before + decode_from(v@, i as int) == before + (seq![c] + decode_from(
                v@,
                i + n,
            )));
            assert(out@ + decode_from(v@, i + n) == before + (seq![c] + decode_from(v@, i + n)));
        }
        i = i + n;
    }
    assert(decode_from(v@, i as int) == Seq::<char>::empty());
    out
}

/// The text of HTML: characters outside tags and outside `script` and
/// `style` elements, a line break for `br` and `p` tags, entities decoded.
pub open spec fn html_text(s: Seq<char>) -> Seq<char> {
    decode_entities(html_state(s).out)
}

/// Strips HTML tags, scripts and styles, keeping the text.
pub fn strip_html_tags(input: &str) -> (r: String)
    ensures
        r@ == html_text(input@),
{
    let v = chars_of(input);
    let mut out = String::new();
    let mut in_tag = false;
    let mut in_script = false;
    let mut in_style = false;
    let mut tag = String::new();
    let mut i: usize = 0;
    proof {
        reveal_strlit("script");
        reveal_strlit("/script");
        reveal_strlit("style");
        reveal_strlit("/style");
        reveal_strlit("br");
        reveal_strlit("br/");
        reveal_strlit("p");
        reveal_strlit("/p");
    }
    while i < v.len()
        invariant
            i <= v@.len(),
            html_state(v@.take(i as int)) == (HtmlState {
                out: out@,
                in_tag,
                in_script,
                in_style,
                tag: tag@,
            }),
        decreases v@.len() - i,
    {
        let c = v[i];
        assert(v@.take(i + 1).drop_last() == v@.take(i as int));
        assert(v@.take(i + 1).last() == c);
        if c == '<' {
            in_tag = true;
            tag = String::new();
        } else if c == '>' && in_tag {
            in_tag = false;
            let lower = to_lowercase(tag.as_str());
            let lv = chars_of(lower.as_str());
            if crate::text::starts_with_str(lower.as_str(), "script") {
                in_script = true;
            } else if equals_str(&lv, "/script") {
                in_script = false;
            } else if crate::text::starts_with_str(lower.as_str(), "style") {
                in_style = true;
            } else if equals_str(&lv, "/style") {
                in_style = false;
            }
            if equals_str(&lv, "br") || equals_str(&lv, "br/") || equals_str(&lv, "p")
                || equals_str(&lv, "/p") {
                push_char(&mut out, '\n');
            }
        } else if in_tag {
            push_char(&mut tag, to_ascii_lower(c));
        } else if !in_script && !in_style {
            push_char(&mut out, c);
        }
        i += 1;
    }
    assert(v@.take(i as int) == v@);
    decode_html_entities(out.as_str())
}


// ───────────────────────── PDF text operators ─────────────────────────

/// The character a PDF string escape `\b` stands for, if any.
pub open spec fn escaped(b: u8) -> Seq<char> {
    if b == 110 {
        seq!['\n']
    } else if b == 114 {
        seq!['\r']
    } else if b == 116 {
        seq!['\t']
    } else if b == 92 {
        seq!['\\']
    } else if b == 40 {
        seq!['(']
    } else if b == 41 {
        seq![')']
    } else {
        seq![]
    }
}

/// Text of a PDF string read from the bytes `b` at parenthesis depth
/// `depth`: bytes inside parentheses (each as the character of that code),
/// escapes decoded, up to the parenthesis that closes the outermost one.
pub open spec fn tj_text(b: Seq<u8>, depth: int) -> Seq<char>
    decreases b.len(),
{
    if b.len() == 0 {
        seq![]
    } else if b[0] == 40 {
        tj_text(b.drop_first(), depth + 1)
    } else if b[0] == 41 {
        if depth - 1 == 0 {
            seq![]
        } else {
            tj_text(b.drop_first(), depth - 1)
        }
    } else if b[0] == 92 && b.len() >= 2 {
        escaped(b[1]) + tj_text(b.skip(2), depth)
    } else {
        (if depth > 0 {
            seq![b[0] as char]
        } else {
            seq![]
        }) + tj_text(b.drop_first(), depth)
    }
}

/// In a PDF string, `\n`, `\r` and `\t` stand for a line feed, a carriage
/// return and a tab, `\\`, `\(` and `\)` for the character escaped,
/// and any other escape for nothing; the rest of the string is read on.
pub proof fn law_pdf_escapes(x: u8, rest: Seq<u8>, depth: int)
    ensures
        tj_text(seq![92u8, x] + rest, depth) == (if x == 0x6E {
            seq!['\n']
        } else if x == 0x72 {
            seq!['\r']
        } else if x == 0x74 {
            seq!['\t']
        } else if x == 0x5C || x == 0x28 || x == 0x29 {
            seq![x as char]
        } else {
            Seq::<char>::empty()
        }) + tj_text(rest, depth),
{
    let b = seq![92u8, x] + rest;
    assert(b[0] == 92u8);
    assert(b.skip(2) =~= rest);
}

/// Text between parentheses, read character by character.
pub open spec fn paren_state(s: Seq<char>) -> (Seq<char>, bool)
    decreases s.len(),
{
    if s.len() == 0 {
        (seq![], false)
    } else {
        let (out, inside) = paren_state(s.drop_last());
        let c = s.last();
        if c == '(' {
            (out, true)
        } else if c == ')' {
            (out, false)
        } else if inside {
            (out.push(c), inside)
        } else {
            (out, inside)
        }
    }
}

/// What a `Tj` operator shows: the string that starts at the first `(`.
pub open spec fn tj_string(line: Seq<char>) -> Seq<char> {
    if contains(line, "Tj"@) && contains(line, seq!['(']) {
        let k = choose|k: int| first_match(line, seq!['('], k);
        tj_text(vstd::utf8::encode_utf8(line.skip(k)), 0)
    } else {
        seq![]
    }
}

/// The text a PDF content line shows through `Tj` or `TJ`, if any.
pub open spec fn pdf_line_text(line: Seq<char>) -> Option<Seq<char>> {
    if tj_string(line).len() > 0 {
        Some(tj_string(line))
    } else if contains(line, "TJ"@) && contains(line, seq!['(']) && paren_state(line).0.len() > 0 {
        Some(paren_state(line).0)
    } else {
        None
    }
}

/// Reads a PDF string from bytes, starting outside any parenthesis.
fn scan_tj(b: &[u8]) -> (r: String)
    ensures
        r@ == tj_text(b@, 0),
{
    let mut text = String::new();
    let mut depth: i128 = 0;
    let mut i: usize = 0;
    let mut done = false;
    let n = b.len();
    assert(b@.skip(0) == b@);
    while i < b.len() && !done
        invariant
            n == b@.len(),
            i <= b@.len(),
            -(i as int) <= depth <= i,
            done ==> tj_text(b@, 0) == text@,
            !done ==> tj_text(b@, 0) == text@ + tj_text(b@.skip(i as int), depth as int),
        decreases b@.len() - i + (if done { 0int } else { 1int }),
    {
        let ghost t = b@.skip(i as int);
        assert(t[0] == b@[i as int]);
        let x = b[i];
        if x == 40 {
            assert(t.drop_first() == b@.skip(i + 1));
            depth = depth + 1;
            i += 1;
        } else if x == 41 {
            if depth - 1 == 0 {
                assert(text@ + Seq::<char>::empty() == text@);
                done = true;
            } else {
                assert(t.drop_first() == b@.skip(i + 1));
                depth = depth - 1;
                i += 1;
            }
        } else if x == 92 && i + 1 < b.len() {
            let y = b[i + 1];
            assert(t[1] == y);
            assert(t.skip(2) == b@.skip(i + 2));
            let ghost before = text@;
            if y == 110 {
                push_char(&mut text, '\n');
            } else if y == 114 {
                push_char(&mut text, '\r');
            } else if y == 116 {
                push_char(&mut text, '\t');
            } else if y == 92 {
                push_char(&mut text, '\\');
            } else if y == 40 {
                push_char(&mut text, '(');
            } else if y == 41 {
                push_char(&mut text, ')');
            }
            assert(text@ == before + escaped(y));
            assert(tj_text(t, depth as int) == escaped(y) + tj_text(t.skip(2), depth as int));
            i += 2;
        } else {
            assert(t.drop_first() == b@.skip(i + 1));
            let ghost before = text@;
            if depth > 0 {
                push_char(&mut text, x as char);
            }
            assert(text@ == before + (if depth > 0 {
                seq![x as char]
            } else {
                seq![]
            }));
            i += 1;
        }
    }
    if !done {
        assert(b@.skip(i as int).len() == 0);
        assert(text@ + Seq::<char>::empty() == text@);
    }
    text
}

/// The text of a PDF `Tj` (`(text) Tj`) or `TJ` (`[(text) num (text)] TJ`)
/// operator line, if it shows any.
pub fn extract_pdf_tj(line: &str) -> (r: Option<String>)
    ensures
        crate::config::opt_text(r) == pdf_line_text(line@),
{
    let v = chars_of(line);
    proof {
        reveal_strlit("Tj");
        reveal_strlit("TJ");
        reveal_strlit("(");
        assert("("@ =~= seq!['(']);
    }
    let has_tj = contains_str(line, "Tj");
    let open = vec!['('];
    assert(open@ =~= seq!['(']);
    let mut tj = String::new();
    if has_tj {
        match find_chars(&v, &open) {
            Some(k) => {
                let rest = string_from_range(&v, k, v.len());
                let bytes = rest.as_str().as_bytes();
                proof {
                    assert(v@.subrange(k as int, v@.len() as int) == v@.skip(k as int));
                    crate::text::lemma_byte_len_encode(rest@);
                    crate::text::lemma_byte_len_add(v@.take(k as int), v@.skip(k as int));
                    assert(v@.take(k as int) + v@.skip(k as int) == v@);
                    assert(first_match(line@, seq!['('], k as int));
                    assert(crate::text::matches_at(line@, k as int, seq!['(']));
                    let kk = choose|kk: int| first_match(line@, seq!['('], kk);
                    crate::text::lemma_first_match_unique(line@, seq!['('], kk, k as int);
                }
                tj = scan_tj(bytes);
            },
            None => {},
        }
    }
    assert(tj@ == tj_string(line@));
    if !tj.as_str().is_empty() {
        return Some(tj);
    }
    if contains_str(line, "TJ") && contains_str(line, "(") {
        let mut out = String::new();
        let mut inside = false;
        let mut i: usize = 0;
        while i < v.len()
            invariant
                i <= v@.len(),
                v@ == line@,
                (out@, inside) == paren_state(v@.take(i as int)),
            decreases v@.len() - i,
        {
            let c = v[i];
            assert(v@.take(i + 1).drop_last() == v@.take(i as int));
            assert(v@.take(i + 1).last() == c);
            if c == '(' {
                inside = true;
            } else if c == ')' {
                inside = false;
            } else if inside {
                push_char(&mut out, c);
            }
            i += 1;
        }
        assert(v@.take(i as int) == v@);
        if !out.as_str().is_empty() {
            return Some(out);
        }
    }
    None
}


// ───────────────────────── PDF text ─────────────────────────

/// Lines read so far (split at line feeds) and the line being read.
pub open spec fn lines_state(s: Seq<char>) -> (Seq<Seq<char>>, Seq<char>)
    decreases s.len(),
{
    if s.len() == 0 {
        (seq![], seq![])
    } else {
        let (done, cur) = lines_state(s.drop_last());
        if s.last() == '\n' {
            (done.push(cur), seq![])
        } else {
            (done, cur.push(s.last()))
        }
    }
}

/// The lines of a text (`str::lines`, before trimming).
pub open spec fn text_lines(s: Seq<char>) -> Seq<Seq<char>> {
    let (done, cur) = lines_state(s);
    if cur.len() > 0 {
        done.push(cur)
    } else {
        done
    }
}

/// Text shown so far by PDF content lines, and whether a `BT` text block
/// is open.
pub open spec fn pdf_state(lines: Seq<Seq<char>>) -> (Seq<char>, bool)
    decreases lines.len(),
{
    if lines.len() == 0 {
        (seq![], false)
    } else {
        let (out, open) = pdf_state(lines.drop_last());
        let t = trim(lines.last());
        if t == "BT"@ {
            (out, true)
        } else if t == "ET"@ {
            (out, false)
        } else if open {
            match pdf_line_text(t) {
                Some(x) => (out + x, open),
                None => (out, open),
            }
        } else {
            (out, open)
        }
    }
}

pub open spec fn pdf_placeholder() -> Seq<char> {
    "[PDF text extraction limited - no embedded text found. OCR may be needed for scanned PDFs]"@
}

/// The text a PDF's content shows inside `BT`/`ET` blocks, or a note that
/// there is none.
pub open spec fn pdf_text(content: Seq<char>) -> Seq<char> {
    let out = pdf_state(text_lines(content)).0;
    if trim(out).len() == 0 {
        pdf_placeholder()
    } else {
        out
    }
}

fn pdf_step(out: &mut String, open: &mut bool, line: &String)
    ensures
        (final(out)@, *final(open)) == ({
            let t = trim(line@);
            if t == "BT"@ {
                (old(out)@, true)
            } else if t == "ET"@ {
                (old(out)@, false)
            } else if *old(open) {
                match pdf_line_text(t) {
                    Some(x) => (old(out)@ + x, *old(open)),
                    None => (old(out)@, *old(open)),
                }
            } else {
                (old(out)@, *old(open))
            }
        }),
{
    let t = trim_str(line.as_str());
    let tv = chars_of(t.as_str());
    if equals_str(&tv, "BT") {
        *open = true;
    } else if equals_str(&tv, "ET") {
        *open = false;
    } else if *open {
        match extract_pdf_tj(t.as_str()) {
            Some(x) => push_str(out, x.as_str()),
            None => {},
        }
    }
}

/// Reads the text of a PDF from its content decoded as text.
pub fn pdf_text_of(content: &str) -> (r: String)
    ensures
        r@ == pdf_text(content@),
{
    let v = chars_of(content);
    let mut out = String::new();
    let mut open = false;
    let mut cur = String::new();
    let ghost mut done: Seq<Seq<char>> = seq![];
    let ghost mut start: int = 0;
    let mut i: usize = 0;
    while i < v.len()
        invariant
            i <= v@.len(),
            v@ == content@,
            (done, cur@) == lines_state(v@.take(i as int)),
            (out@, open) == pdf_state(done),
            0 <= start <= i,
            cur@ == v@.subrange(start, i as int),
            forall|k: int| start <= k < i ==> v@[k] != '\n',
        decreases v@.len() - i,
    {
        let c = v[i];
        assert(v@.take(i + 1).drop_last() == v@.take(i as int));
        assert(v@.take(i + 1).last() == c);
        if c == '\n' {
            pdf_step(&mut out, &mut open, &cur);
            proof {
                assert(done.push(cur@).drop_last() == done);
                done = done.push(cur@);
                start = i + 1;
            }
            cur = String::new();
            assert(cur@ == v@.subrange(start, i + 1));
        } else {
            push_char(&mut cur, c);
            assert(cur@ == v@.subrange(start, i + 1));
        }
        i += 1;
    }
    assert(v@.take(i as int) == v@);
    if !cur.as_str().is_empty() {
        pdf_step(&mut out, &mut open, &cur);
        assert(done.push(cur@).drop_last() == done);
    }
    proof {
        reveal_strlit("[PDF text extraction limited - no embedded text found. OCR may be needed for scanned PDFs]");
    }
    if is_blank(out.as_str()) {
        owned("[PDF text extraction limited - no embedded text found. OCR may be needed for scanned PDFs]")
    } else {
        out
    }
}


// ───────────────────────── encodings ─────────────────────────

/// What `String::from_utf8_lossy` gives for some bytes.
pub uninterp spec fn utf8_lossy(bytes: Seq<u8>) -> Seq<char>;

/// `String::from_utf8_lossy`: the bytes decoded as UTF-8, invalid sequences
/// replaced by U+FFFD; valid UTF-8 decodes to exactly its characters.
#[verifier::external_body]
pub(crate) fn from_utf8_lossy(bytes: &[u8]) -> (r: String)
    ensures
        r@ == utf8_lossy(bytes@),
        vstd::utf8::valid_utf8(bytes@) ==> r@ == vstd::utf8::decode_utf8(bytes@),
{
    String::from_utf8_lossy(bytes).to_string()
}

/// What `String::from_utf16_lossy` gives for some UTF-16 code units.
pub uninterp spec fn utf16_lossy(units: Seq<u16>) -> Seq<char>;

/// `String::from_utf16_lossy`: the code units decoded as UTF-16, unpaired
/// surrogates replaced by U+FFFD.
#[verifier::external_body]
fn from_utf16_lossy(units: &[u16]) -> (r: String)
    ensures
        r@ == utf16_lossy(units@),
{
    String::from_utf16_lossy(units)
}

#[verifier::external_type_specification]
#[verifier::external_body]
pub struct ExEncoding(encoding_rs::Encoding);

pub open spec fn starts_with_bytes(b: Seq<u8>, p: Seq<u8>) -> bool {
    p.len() <= b.len() && b.subrange(0, p.len() as int) == p
}

/// The byte order marks `encoding_rs` recognizes: UTF-8, UTF-16LE, UTF-16BE.
pub open spec fn bom_length(b: Seq<u8>) -> Option<nat> {
    if starts_with_bytes(b, seq![0xEFu8, 0xBBu8, 0xBFu8]) {
        Some(3)
    } else if starts_with_bytes(b, seq![0xFFu8, 0xFEu8]) {
        Some(2)
    } else if starts_with_bytes(b, seq![0xFEu8, 0xFFu8]) {
        Some(2)
    } else {
        None
    }
}

/// The three byte order marks are recognized with their lengths, whatever
/// follows them: `EF BB BF` (3 bytes), `FF FE` and `FE FF` (2 bytes); bytes
/// that start with none of them have no mark.
pub proof fn law_byte_order_marks(rest: Seq<u8>)
    ensures
        bom_length(seq![0xEFu8, 0xBBu8, 0xBFu8] + rest) == Some(3nat),
        bom_length(seq![0xFFu8, 0xFEu8] + rest) == Some(2nat),
        bom_length(seq![0xFEu8, 0xFFu8] + rest) == Some(2nat),
        rest.len() >= 1 && rest[0] != 0xEF && rest[0] != 0xFF && rest[0] != 0xFE ==> bom_length(
            rest,
        ) is None,
{
    assert((seq![0xEFu8, 0xBBu8, 0xBFu8] + rest).subrange(0, 3) =~= seq![0xEFu8, 0xBBu8, 0xBFu8]);
    let a = seq![0xFFu8, 0xFEu8] + rest;
    assert(a.subrange(0, 2) =~= seq![0xFFu8, 0xFEu8]);
    if starts_with_bytes(a, seq![0xEFu8, 0xBBu8, 0xBFu8]) {
        assert(a.subrange(0, 3)[0] == a[0]);
    }
    let b = seq![0xFEu8, 0xFFu8] + rest;
    assert(b.subrange(0, 2) =~= seq![0xFEu8, 0xFFu8]);
    if starts_with_bytes(b, seq![0xEFu8, 0xBBu8, 0xBFu8]) {
        assert(b.subrange(0, 3)[0] == b[0]);
    }
    if starts_with_bytes(b, seq![0xFFu8, 0xFEu8]) {
        assert(b.subrange(0, 2)[0] == b[0]);
    }
    if rest.len() >= 1 && rest[0] != 0xEF && rest[0] != 0xFF && rest[0] != 0xFE {
        if starts_with_bytes(rest, seq![0xEFu8, 0xBBu8, 0xBFu8]) {
            assert(rest.subrange(0, 3)[0] == rest[0]);
        }
        if starts_with_bytes(rest, seq![0xFFu8, 0xFEu8]) {
            assert(rest.subrange(0, 2)[0] == rest[0]);
        }
        if starts_with_bytes(rest, seq![0xFEu8, 0xFFu8]) {
            assert(rest.subrange(0, 2)[0] == rest[0]);
        }
    }
}

/// `encoding_rs::Encoding::for_bom`: the encoding a buffer's byte order
/// mark names, and the mark's length; nothing when there is no mark.
#[verifier::external_body]
fn encoding_for_bom(buffer: &[u8]) -> (r: Option<(&'static encoding_rs::Encoding, usize)>)
    ensures
        match r {
            Some((_, n)) => bom_length(buffer@) == Some(n as nat),
            None => bom_length(buffer@) is None,
        },
{
    encoding_rs::Encoding::for_bom(buffer)
}

/// `encoding_rs::Encoding::decode_without_bom_handling`, the decoded text;
/// nothing is stated of it.
#[verifier::external_body]
fn decode_without_bom(encoding: &'static encoding_rs::Encoding, bytes: &[u8]) -> String {
    encoding.decode_without_bom_handling(bytes).0.into_owned()
}

/// Little-endian (or big-endian) UTF-16 code units of `b`, pairing bytes
/// and dropping an odd last byte.
pub open spec fn utf16_units(b: Seq<u8>, little: bool) -> Seq<u16> {
    Seq::new(
        b.len() / 2,
        |i: int|
            if little {
                (b[2 * i] as u16 + 256 * (b[2 * i + 1] as u16)) as u16
            } else {
                (b[2 * i + 1] as u16 + 256 * (b[2 * i] as u16)) as u16
            },
    )
}

fn units_of(b: &[u8], from: usize, little: bool) -> (r: Vec<u16>)
    requires
        from <= b@.len(),
    ensures
        r@ == utf16_units(b@.skip(from as int), little),
{
    let n = b.len();
    let mut r: Vec<u16> = Vec::new();
    let mut i = from;
    let ghost t = b@.skip(from as int);
    while i < n && n - i >= 2
        invariant
            n == b@.len(),
            from <= i <= n,
            (i - from) % 2 == 0,
            t == b@.skip(from as int),
            r@.len() == (i - from) / 2,
            forall|k: int| 0 <= k < r@.len() ==> r@[k] == utf16_units(t, little)[k],
        decreases n - i,
    {
        let lo = if little {
            b[i]
        } else {
            b[i + 1]
        };
        let hi = if little {
            b[i + 1]
        } else {
            b[i]
        };
        let u: u16 = (lo as u16) + 256 * (hi as u16);
        assert(t[2 * r@.len() as int] == b@[i as int] && t[2 * r@.len() as int + 1] == b@[i + 1]);
        r.push(u);
        i += 2;
    }
    assert(r@ =~= utf16_units(t, little));
    r
}

/// What `detect_and_decode` reads from a file's bytes: a UTF-8 byte order
/// mark is dropped, UTF-16 text (LE or BE by its mark) is decoded, anything
/// else is decoded as UTF-8 with replacement characters.
pub open spec fn decoded_text(b: Seq<u8>) -> Seq<char> {
    if starts_with_bytes(b, seq![0xEFu8, 0xBBu8, 0xBFu8]) {
        utf8_lossy(b.skip(3))
    } else if starts_with_bytes(b, seq![0xFFu8, 0xFEu8]) {
        utf16_lossy(utf16_units(b.skip(2), true))
    } else if starts_with_bytes(b, seq![0xFEu8, 0xFFu8]) {
        utf16_lossy(utf16_units(b.skip(2), false))
    } else {
        utf8_lossy(b)
    }
}

fn starts_with_marks(b: &[u8], m0: u8, m1: u8, m2: Option<u8>) -> (r: bool)
    ensures
        r == match m2 {
            Some(x) => starts_with_bytes(b@, seq![m0, m1, x]),
            None => starts_with_bytes(b@, seq![m0, m1]),
        },
{
    match m2 {
        Some(x) => {
            let r = b.len() >= 3 && b[0] == m0 && b[1] == m1 && b[2] == x;
            assert(r ==> b@.subrange(0, 3) =~= seq![m0, m1, x]);
            assert(b@.len() >= 3 && b@.subrange(0, 3) == seq![m0, m1, x] ==> r) by {
                if b@.len() >= 3 && b@.subrange(0, 3) == seq![m0, m1, x] {
                    assert(b@.subrange(0, 3)[0] == m0 && b@.subrange(0, 3)[1] == m1
                        && b@.subrange(0, 3)[2] == x);
                }
            }
            r
        },
        None => {
            let r = b.len() >= 2 && b[0] == m0 && b[1] == m1;
            assert(r ==> b@.subrange(0, 2) =~= seq![m0, m1]);
            assert(b@.len() >= 2 && b@.subrange(0, 2) == seq![m0, m1] ==> r) by {
                if b@.len() >= 2 && b@.subrange(0, 2) == seq![m0, m1] {
                    assert(b@.subrange(0, 2)[0] == m0 && b@.subrange(0, 2)[1] == m1);
                }
            }
            r
        },
    }
}

/// Decodes a text file's bytes by their byte order mark.
pub fn detect_and_decode(raw: &[u8]) -> (r: String)
    ensures
        r@ == decoded_text(raw@),
        bom_length(raw@) is None && vstd::utf8::valid_utf8(raw@) ==> r@ == vstd::utf8::decode_utf8(
            raw@,
        ),
        starts_with_bytes(raw@, seq![0xEFu8, 0xBBu8, 0xBFu8]) && vstd::utf8::valid_utf8(
            raw@.skip(3),
        ) ==> r@ == vstd::utf8::decode_utf8(raw@.skip(3)),
{
    if starts_with_marks(raw, 0xEF, 0xBB, Some(0xBF)) {
        let rest = vstd::slice::slice_subrange(raw, 3, raw.len());
        assert(rest@ == raw@.skip(3));
        return from_utf8_lossy(rest);
    }
    if starts_with_marks(raw, 0xFF, 0xFE, None) {
        let units = units_of(raw, 2, true);
        return from_utf16_lossy(units.as_slice());
    }
    if starts_with_marks(raw, 0xFE, 0xFF, None) {
        let units = units_of(raw, 2, false);
        return from_utf16_lossy(units.as_slice());
    }
    let empty: [u8; 0] = [];
    let guess = match encoding_for_bom(&empty) {
        Some((enc, _)) => {
            proof {
                assert(bom_length(Seq::<u8>::empty()) is None);
            }
            decode_without_bom(enc, raw)
        },
        None => String::new(),
    };
    if !guess.as_str().is_empty() {
        return guess;
    }
    from_utf8_lossy(raw)
}

// ───────────────────────── whole files ─────────────────────────

/// Text read from a file, with the file's MIME type.
#[derive(Debug)]
pub struct ExtractedContent {
    pub text: String,
    pub mime_type: String,
    /// Whether Tika read the file.
    pub used_tika: bool,
}

/// Printable ASCII or space.
pub open spec fn shown_byte(x: u8) -> bool {
    (0x21 <= x <= 0x7E) || x == 0x20
}

/// Runs of printable bytes ended so far (each of at least 4, followed by
/// a line feed), and the run still open.
pub open spec fn runs_state(b: Seq<u8>) -> (Seq<char>, Seq<char>)
    decreases b.len(),
{
    if b.len() == 0 {
        (seq![], seq![])
    } else {
        let (text, cur) = runs_state(b.drop_last());
        let x = b.last();
        if shown_byte(x) {
            (text, cur.push(x as char))
        } else if cur.len() >= 4 {
            (text + cur.push('\n'), seq![])
        } else {
            (text, seq![])
        }
    }
}

/// The runs of printable bytes of `b` (each of at least 4, followed by a
/// line feed), the run that ends the input included.
pub open spec fn printable_runs(b: Seq<u8>) -> Seq<char> {
    let (text, cur) = runs_state(b);
    if cur.len() >= 4 {
        text + cur.push('\n')
    } else {
        text
    }
}

/// The bytes of `b` read as ASCII characters.
pub open spec fn ascii_chars(b: Seq<u8>) -> Seq<char> {
    b.map_values(|x: u8| x as char)
}

proof fn lemma_runs_all_printable(b: Seq<u8>)
    requires
        forall|i: int| 0 <= i < b.len() ==> 0x20 <= #[trigger] b[i] <= 0x7E,
    ensures
        runs_state(b) == (Seq::<char>::empty(), ascii_chars(b)),
    decreases b.len(),
{
    if b.len() > 0 {
        let t = b.drop_last();
        assert forall|i: int| 0 <= i < t.len() implies 0x20 <= #[trigger] t[i] <= 0x7E by {
            assert(t[i] == b[i]);
        }
        lemma_runs_all_printable(t);
        assert(b.last() == b[b.len() - 1]);
        assert(ascii_chars(t).push(b.last() as char) =~= ascii_chars(b));
    } else {
        assert(ascii_chars(b) =~= Seq::<char>::empty());
    }
}

proof fn lemma_runs_concat(p: Seq<u8>, q: Seq<u8>)
    requires
        runs_state(p).1.len() == 0,
    ensures
        runs_state(p + q) == (runs_state(p).0 + runs_state(q).0, runs_state(q).1),
    decreases q.len(),
{
    if q.len() == 0 {
        assert(p + q =~= p);
        assert(runs_state(p).0 + Seq::<char>::empty() =~= runs_state(p).0);
        assert(runs_state(p).1 =~= Seq::<char>::empty());
    } else {
        assert((p + q).drop_last() =~= p + q.drop_last());
        assert((p + q).last() == q.last());
        lemma_runs_concat(p, q.drop_last());
        let (tq, cq) = runs_state(q.drop_last());
        let x = q.last();
        if !shown_byte(x) && cq.len() >= 4 {
            assert(runs_state(p).0 + tq + cq.push('\n') =~= runs_state(p).0 + (tq + cq.push('\n')));
        }
    }
}

/// The readable strings of bytes split at a byte that is not printable are
/// those of the part before it followed by those of the part after it.
pub proof fn law_printable_runs_split(b1: Seq<u8>, z: u8, b2: Seq<u8>)
    requires
        !(0x20 <= z <= 0x7E),
    ensures
        printable_runs(b1 + seq![z] + b2) == printable_runs(b1) + printable_runs(b2),
{
    let p = b1 + seq![z];
    assert(p.drop_last() =~= b1);
    assert(p.last() == z);
    assert(runs_state(p).0 == printable_runs(b1));
    assert(runs_state(p).1.len() == 0);
    lemma_runs_concat(p, b2);
    let (t2, c2) = runs_state(b2);
    if c2.len() >= 4 {
        assert(printable_runs(b1) + t2 + c2.push('\n') =~= printable_runs(b1) + (t2 + c2.push(
            '\n',
        )));
    }
}

/// A run of printable ASCII bytes (space to `~`) is a readable string when
/// it has at least 4 bytes: it is kept, followed by a line feed; a shorter
/// one is dropped.
pub proof fn law_printable_run(b: Seq<u8>)
    requires
        forall|i: int| 0 <= i < b.len() ==> 0x20 <= #[trigger] b[i] <= 0x7E,
    ensures
        b.len() >= 4 ==> printable_runs(b) == ascii_chars(b).push('\n'),
        b.len() < 4 ==> printable_runs(b) == Seq::<char>::empty(),
{
    lemma_runs_all_printable(b);
    assert(Seq::<char>::empty() + ascii_chars(b).push('\n') =~= ascii_chars(b).push('\n'));
}

/// The readable strings of a binary file, or a note naming its type.
pub open spec fn binary_text(b: Seq<u8>, mime: Seq<char>) -> Seq<char> {
    let t = printable_runs(b);
    if t.len() == 0 {
        "[Binary file, type: "@ + mime + "]"@
    } else {
        t
    }
}

/// Extracts the readable strings of a binary file.
pub fn extract_binary_strings(raw: &[u8], mime: &str) -> (r: ExtractedContent)
    ensures
        r.text@ == binary_text(raw@, mime@),
        r.mime_type@ == mime@,
        !r.used_tika,
{
    let mut text = String::new();
    let mut cur = String::new();
    let ghost mut cur_len: nat = 0;
    let mut cur_count: usize = 0;
    let mut i: usize = 0;
    let n = raw.len();
    while i < n
        invariant
            n == raw@.len(),
            i <= n,
            (text@, cur@) == runs_state(raw@.take(i as int)),
            cur_count == cur@.len(),
            cur_count <= i,
        decreases n - i,
    {
        let x = raw[i];
        assert(raw@.take(i + 1).drop_last() == raw@.take(i as int));
        assert(raw@.take(i + 1).last() == x);
        if (0x21 <= x && x <= 0x7E) || x == 0x20 {
            push_char(&mut cur, x as char);
            cur_count += 1;
        } else {
            if cur_count >= 4 {
                push_str(&mut text, cur.as_str());
                push_char(&mut text, '\n');
                assert(text@ =~= runs_state(raw@.take(i as int)).0 + runs_state(
                    raw@.take(i as int),
                ).1.push('\n'));
            }
            cur = String::new();
            cur_count = 0;
        }
        i += 1;
    }
    assert(raw@.take(i as int) == raw@);
    if cur_count >= 4 {
        push_str(&mut text, cur.as_str());
        push_char(&mut text, '\n');
    }
    let text = if text.as_str().is_empty() {
        let mut t = owned("[Binary file, type: ");
        push_str(&mut t, mime);
        push_str(&mut t, "]");
        t
    } else {
        text
    };
    ExtractedContent { text, mime_type: owned(mime), used_tika: false }
}

/// Files larger than this are not decoded.
pub open spec fn plain_limit() -> nat {
    52428800
}

/// The text of a plain text file: decoded by its byte order mark, or a
/// note with its size in MiB when it is over 50 MiB.
pub open spec fn plain_text(b: Seq<u8>) -> Seq<char> {
    if b.len() > plain_limit() {
        "[File too large: "@ + decimal(b.len() / 1024 / 1024) + " MB]"@
    } else {
        decoded_text(b)
    }
}

/// Reads a plain text file.
pub fn extract_plain_text(raw: &[u8], mime: &str) -> (r: ExtractedContent)
    ensures
        r.text@ == plain_text(raw@),
        r.mime_type@ == mime@,
        !r.used_tika,
{
    let text = if raw.len() > 50 * 1024 * 1024 {
        let mut t = owned("[File too large: ");
        push_decimal(&mut t, (raw.len() / 1024 / 1024) as u64);
        push_str(&mut t, " MB]");
        t
    } else {
        detect_and_decode(raw)
    };
    ExtractedContent { text, mime_type: owned(mime), used_tika: false }
}

/// Reads a PDF's embedded text.
pub fn extract_pdf_text(raw: &[u8], mime: &str) -> (r: ExtractedContent)
    ensures
        r.text@ == pdf_text(utf8_lossy(raw@)),
        r.mime_type@ == mime@,
        !r.used_tika,
{
    let content = from_utf8_lossy(raw);
    ExtractedContent { text: pdf_text_of(content.as_str()), mime_type: owned(mime), used_tika: false }
}


// ───────────────────────── archives ─────────────────────────

/// An entry of a ZIP-based document: its name, and its text when it reads
/// as UTF-8.
#[derive(Debug)]
pub struct ArchiveEntry {
    pub name: String,
    pub content: Option<String>,
}

/// Which entries of an archive hold text, and how their markup is stripped.
#[derive(Debug, Clone, Copy, PartialEq, Eq, Structural)]
pub enum ArchiveKind {
    /// DOCX, XLSX, PPTX: `.xml` and `.rels` parts, XML tags stripped.
    OfficeOpenXml,
    /// EPUB: `.html`, `.xhtml` and `.htm` parts, HTML stripped.
    Epub,
}

pub open spec fn archive_part(kind: ArchiveKind, name: Seq<char>) -> bool {
    let n = lowercase(name);
    match kind {
        ArchiveKind::OfficeOpenXml => ends_with(n, ".xml"@) || ends_with(n, ".rels"@),
        ArchiveKind::Epub => ends_with(n, ".html"@) || ends_with(n, ".xhtml"@) || ends_with(
            n,
            ".htm"@,
        ),
    }
}

/// The parts read from an Office Open XML document are those whose names
/// end in `.xml` or `.rels`, and from an EPUB book those ending in `.html`,
/// `.xhtml` or `.htm`, in any case.
pub proof fn law_archive_parts(name: Seq<char>)
    ensures
        archive_part(ArchiveKind::OfficeOpenXml, name) <==> (ends_with(lowercase(name), ".xml"@)
            || ends_with(lowercase(name), ".rels"@)),
        archive_part(ArchiveKind::Epub, name) <==> (ends_with(lowercase(name), ".html"@) || ends_with(
            lowercase(name),
            ".xhtml"@,
        ) || ends_with(lowercase(name), ".htm"@)),
{
}

pub open spec fn part_text(kind: ArchiveKind, content: Seq<char>) -> Seq<char> {
    match kind {
        ArchiveKind::OfficeOpenXml => xml_text(content),
        ArchiveKind::Epub => html_text(content),
    }
}

/// The text of the readable parts of an archive, each followed by a line feed.
pub open spec fn archive_parts_text(kind: ArchiveKind, entries: Seq<ArchiveEntry>) -> Seq<char>
    decreases entries.len(),
{
    if entries.len() == 0 {
        seq![]
    } else {
        let rest = archive_parts_text(kind, entries.drop_last());
        let e = entries.last();
        match e.content {
            Some(c) => if archive_part(kind, e.name@) {
                rest + part_text(kind, c@).push('\n')
            } else {
                rest
            },
            None => rest,
        }
    }
}

pub open spec fn archive_placeholder(kind: ArchiveKind) -> Seq<char> {
    match kind {
        ArchiveKind::OfficeOpenXml => "[No extractable text found in OOXML document]"@,
        ArchiveKind::Epub => "[No text content found in EPUB]"@,
    }
}

/// The text of an archive, or a note that it has none.
pub open spec fn archive_text(kind: ArchiveKind, entries: Seq<ArchiveEntry>) -> Seq<char> {
    let t = archive_parts_text(kind, entries);
    if t.len() == 0 {
        archive_placeholder(kind)
    } else {
        t
    }
}

fn is_archive_part(kind: ArchiveKind, name: &str) -> (b: bool)
    ensures
        b == archive_part(kind, name@),
{
    let n = to_lowercase(name);
    match kind {
        ArchiveKind::OfficeOpenXml => ends_with_str(n.as_str(), ".xml") || ends_with_str(
            n.as_str(),
            ".rels",
        ),
        ArchiveKind::Epub => ends_with_str(n.as_str(), ".html") || ends_with_str(
            n.as_str(),
            ".xhtml",
        ) || ends_with_str(n.as_str(), ".htm"),
    }
}

/// Reads the text of an Office Open XML document or an EPUB book from its
/// entries.
pub fn extract_archive_text(kind: ArchiveKind, entries: &Vec<ArchiveEntry>, mime: &str) -> (r:
    ExtractedContent)
    ensures
        r.text@ == archive_text(kind, entries@),
        r.mime_type@ == mime@,
        !r.used_tika,
{
    let mut text = String::new();
    let mut i: usize = 0;
    while i < entries.len()
        invariant
            i <= entries@.len(),
            text@ == archive_parts_text(kind, entries@.take(i as int)),
        decreases entries@.len() - i,
    {
        let e = &entries[i];
        assert(entries@.take(i + 1).drop_last() == entries@.take(i as int));
        assert(entries@.take(i + 1).last() == entries@[i as int]);
        match &e.content {
            Some(c) => {
                if is_archive_part(kind, e.name.as_str()) {
                    let stripped = match kind {
                        ArchiveKind::OfficeOpenXml => strip_xml_tags(c.as_str()),
                        ArchiveKind::Epub => strip_html_tags(c.as_str()),
                    };
                    push_str(&mut text, stripped.as_str());
                    push_char(&mut text, '\n');
                }
            },
            None => {},
        }
        i += 1;
    }
    assert(entries@.take(i as int) == entries@);
    proof {
        reveal_strlit("[No extractable text found in OOXML document]");
        reveal_strlit("[No text content found in EPUB]");
    }
    let text = if text.as_str().is_empty() {
        match kind {
            ArchiveKind::OfficeOpenXml => owned("[No extractable text found in OOXML document]"),
            ArchiveKind::Epub => owned("[No text content found in EPUB]"),
        }
    } else {
        text
    };
    ExtractedContent { text, mime_type: owned(mime), used_tika: false }
}

// ───────────────────────── file types ─────────────────────────

/// MIME types that need Tika to be read properly.
pub open spec fn tika_formats() -> Seq<Seq<char>> {
    seq![
        "application/msword"@,
        "application/vnd.ms-excel"@,
        "application/vnd.ms-powerpoint"@,
        "application/vnd.ms-outlook"@,
        "application/vnd.visio"@,
        "application/rtf"@,
        "application/x-chm"@,
        "application/vnd.ms-htmlhelp"@,
        "application/vnd.oasis.opendocument.text"@,
        "application/vnd.oasis.opendocument.spreadsheet"@,
        "application/vnd.oasis.opendocument.presentation"@,
        "application/x-mobipocket-ebook"@,
        "image/vnd.djvu"@,
        "application/vnd.apple.keynote"@,
        "application/vnd.apple.pages"@,
        "application/vnd.apple.numbers"@,
        "application/vnd.ms-works"@,
        "application/vnd.wordperfect"@,
    ]
}

/// MIME types read as plain text.
pub open spec fn plain_formats() -> Seq<Seq<char>> {
    seq![
        "text/plain"@,
        "text/html"@,
        "text/css"@,
        "text/javascript"@,
        "text/xml"@,
        "text/csv"@,
        "application/json"@,
        "application/xml"@,
        "text/markdown"@,
    ]
}

/// MIME types of Office Open XML documents.
pub open spec fn ooxml_formats() -> Seq<Seq<char>> {
    seq![
        "application/vnd.openxmlformats-officedocument.wordprocessingml.document"@,
        "application/vnd.openxmlformats-officedocument.spreadsheetml.sheet"@,
        "application/vnd.openxmlformats-officedocument.presentationml.presentation"@,
    ]
}

fn one_of(mime: &str, list: &[&str]) -> (b: bool)
    ensures
        b == list@.map_values(|s: &str| s@).contains(mime@),
{
    let m = chars_of(mime);
    let mut i: usize = 0;
    while i < list.len()
        invariant
            i <= list@.len(),
            m@ == mime@,
            forall|k: int| 0 <= k < i ==> list@[k]@ != mime@,
        decreases list@.len() - i,
    {
        if equals_str(&m, list[i]) {
            assert(list@.map_values(|s: &str| s@)[i as int] == mime@);
            return true;
        }
        i += 1;
    }
    let ghost views = list@.map_values(|s: &str| s@);
    assert(!views.contains(mime@)) by {
        if views.contains(mime@) {
            let k = choose|k: int| 0 <= k < views.len() && #[trigger] views[k] == mime@;
            assert(views[k] == list@[k]@);
        }
    }
    false
}

/// Whether a MIME type needs Tika.
pub fn is_tika_format(mime: &str) -> (b: bool)
    ensures
        b == tika_formats().contains(mime@),
{
    let list = [
        "application/msword",
        "application/vnd.ms-excel",
        "application/vnd.ms-powerpoint",
        "application/vnd.ms-outlook",
        "application/vnd.visio",
        "application/rtf",
        "application/x-chm",
        "application/vnd.ms-htmlhelp",
        "application/vnd.oasis.opendocument.text",
        "application/vnd.oasis.opendocument.spreadsheet",
        "application/vnd.oasis.opendocument.presentation",
        "application/x-mobipocket-ebook",
        "image/vnd.djvu",
        "application/vnd.apple.keynote",
        "application/vnd.apple.pages",
        "application/vnd.apple.numbers",
        "application/vnd.ms-works",
        "application/vnd.wordperfect",
    ];
    let b = one_of(mime, &list);
    assert(list@.map_values(|s: &str| s@) =~= tika_formats());
    b
}

/// How a file of some MIME type is read.
#[derive(Debug, Clone, Copy, PartialEq, Eq, Structural)]
pub enum Reader {
    /// Needs Tika, which is configured.
    Tika,
    /// Decoded as text; if the file cannot be read, its readable strings.
    PlainOrBinary,
    /// Decoded as text.
    Plain,
    /// The text of an archive's parts.
    Archive(ArchiveKind),
    /// PDF text operators.
    Pdf,
}

pub open spec fn reader_for(mime: Seq<char>, tika_available: bool) -> Reader {
    if tika_formats().contains(mime) {
        if tika_available {
            Reader::Tika
        } else {
            Reader::PlainOrBinary
        }
    } else if plain_formats().contains(mime) {
        Reader::Plain
    } else if ooxml_formats().contains(mime) {
        Reader::Archive(ArchiveKind::OfficeOpenXml)
    } else if mime == "application/pdf"@ {
        Reader::Pdf
    } else if mime == "application/epub+zip"@ {
        Reader::Archive(ArchiveKind::Epub)
    } else {
        Reader::PlainOrBinary
    }
}

/// The formats that need Tika: old Office binary formats, Outlook and Visio
/// files, rich text, help files, OpenDocument, Mobipocket and DjVu ebooks,
/// Apple iWork, Works and WordPerfect. A file of one of them is read through
/// Tika when it is configured, else as plain text or readable strings.
pub proof fn law_tika_types(mime: Seq<char>, tika_available: bool)
    requires
        mime == "application/msword"@ || mime == "application/vnd.ms-excel"@ || mime
            == "application/vnd.ms-powerpoint"@ || mime == "application/vnd.ms-outlook"@ || mime
            == "application/vnd.visio"@ || mime == "application/rtf"@ || mime
            == "application/x-chm"@ || mime == "application/vnd.ms-htmlhelp"@ || mime
            == "application/vnd.oasis.opendocument.text"@ || mime
            == "application/vnd.oasis.opendocument.spreadsheet"@ || mime
            == "application/vnd.oasis.opendocument.presentation"@ || mime
            == "application/x-mobipocket-ebook"@ || mime == "image/vnd.djvu"@ || mime
            == "application/vnd.apple.keynote"@ || mime == "application/vnd.apple.pages"@ || mime
            == "application/vnd.apple.numbers"@ || mime == "application/vnd.ms-works"@ || mime
            == "application/vnd.wordperfect"@,
    ensures
        tika_formats().contains(mime),
        reader_for(mime, tika_available) == (if tika_available {
            Reader::Tika
        } else {
            Reader::PlainOrBinary
        }),
{
    let t = tika_formats();
    let k: int = if mime == "application/msword"@ { 0 }
        else if mime == "application/vnd.ms-excel"@ { 1 }
        else if mime == "application/vnd.ms-powerpoint"@ { 2 }
        else if mime == "application/vnd.ms-outlook"@ { 3 }
        else if mime == "application/vnd.visio"@ { 4 }
        else if mime == "application/rtf"@ { 5 }
        else if mime == "application/x-chm"@ { 6 }
        else if mime == "application/vnd.ms-htmlhelp"@ { 7 }
        else if mime == "application/vnd.oasis.opendocument.text"@ { 8 }
        else if mime == "application/vnd.oasis.opendocument.spreadsheet"@ { 9 }
        else if mime == "application/vnd.oasis.opendocument.presentation"@ { 10 }
        else if mime == "application/x-mobipocket-ebook"@ { 11 }
        else if mime == "image/vnd.djvu"@ { 12 }
        else if mime == "application/vnd.apple.keynote"@ { 13 }
        else if mime == "application/vnd.apple.pages"@ { 14 }
        else if mime == "application/vnd.apple.numbers"@ { 15 }
        else if mime == "application/vnd.ms-works"@ { 16 }
        else { 17 };
    assert(t[k] == mime);
}

/// The names of the Tika and plain-text formats are shorter than 50
/// characters.
proof fn lemma_short_format_names()
    ensures
        forall|j: int| 0 <= j < tika_formats().len() ==> #[trigger] tika_formats()[j].len() < 50,
        forall|j: int| 0 <= j < plain_formats().len() ==> #[trigger] plain_formats()[j].len() < 50,
{
        reveal_strlit("application/msword");
        reveal_strlit("application/vnd.ms-excel");
        reveal_strlit("application/vnd.ms-powerpoint");
        reveal_strlit("application/vnd.ms-outlook");
        reveal_strlit("application/vnd.visio");
        reveal_strlit("application/rtf");
        reveal_strlit("application/x-chm");
        reveal_strlit("application/vnd.ms-htmlhelp");
        reveal_strlit("application/vnd.oasis.opendocument.text");
        reveal_strlit("application/vnd.oasis.opendocument.spreadsheet");
        reveal_strlit("application/vnd.oasis.opendocument.presentation");
        reveal_strlit("application/x-mobipocket-ebook");
        reveal_strlit("image/vnd.djvu");
        reveal_strlit("application/vnd.apple.keynote");
        reveal_strlit("application/vnd.apple.pages");
        reveal_strlit("application/vnd.apple.numbers");
        reveal_strlit("application/vnd.ms-works");
        reveal_strlit("application/vnd.wordperfect");
        reveal_strlit("text/plain");
        reveal_strlit("text/html");
        reveal_strlit("text/css");
        reveal_strlit("text/javascript");
        reveal_strlit("text/xml");
        reveal_strlit("text/csv");
        reveal_strlit("application/json");
        reveal_strlit("application/xml");
        reveal_strlit("text/markdown");
}

proof fn lemma_ooxml_not_tika_or_plain(mime: Seq<char>)
    requires
        mime == "application/vnd.openxmlformats-officedocument.wordprocessingml.document"@ || mime
            == "application/vnd.openxmlformats-officedocument.spreadsheetml.sheet"@ || mime
            == "application/vnd.openxmlformats-officedocument.presentationml.presentation"@,
    ensures
        !tika_formats().contains(mime),
        !plain_formats().contains(mime),
{
    reveal_strlit("application/vnd.openxmlformats-officedocument.wordprocessingml.document");
    reveal_strlit("application/vnd.openxmlformats-officedocument.spreadsheetml.sheet");
    reveal_strlit("application/vnd.openxmlformats-officedocument.presentationml.presentation");
    lemma_short_format_names();
    assert(mime.len() >= 50);
}

/// Word, Excel and PowerPoint documents of Office Open XML (docx, xlsx,
/// pptx) are read as archives of XML parts, whether Tika is configured or
/// not.
pub proof fn law_office_open_xml_types(mime: Seq<char>, tika_available: bool)
    requires
        mime == "application/vnd.openxmlformats-officedocument.wordprocessingml.document"@ || mime
            == "application/vnd.openxmlformats-officedocument.spreadsheetml.sheet"@ || mime
            == "application/vnd.openxmlformats-officedocument.presentationml.presentation"@,
    ensures
        reader_for(mime, tika_available) == Reader::Archive(ArchiveKind::OfficeOpenXml),
{
    lemma_ooxml_not_tika_or_plain(mime);
    let o = ooxml_formats();
    let k: int = if mime == "application/vnd.openxmlformats-officedocument.wordprocessingml.document"@ {
        0
    } else if mime == "application/vnd.openxmlformats-officedocument.spreadsheetml.sheet"@ {
        1
    } else {
        2
    };
    assert(o[k] == mime);
}

/// Text formats (plain text, HTML, CSS, JavaScript, XML, CSV, JSON and
/// Markdown) are decoded as text, PDF files are read by their text
/// operators, and EPUB books as archives of XHTML parts.
pub proof fn law_text_pdf_and_epub_types(mime: Seq<char>, tika_available: bool)
    ensures
        (mime == "text/plain"@ || mime == "text/html"@ || mime == "text/css"@ || mime
            == "text/javascript"@ || mime == "text/xml"@ || mime == "text/csv"@ || mime
            == "application/json"@ || mime == "application/xml"@ || mime == "text/markdown"@) ==> reader_for(mime, tika_available) == Reader::Plain,
        mime == "application/pdf"@ ==> reader_for(mime, tika_available) == Reader::Pdf,
        mime == "application/epub+zip"@ ==> reader_for(mime, tika_available) == Reader::Archive(
            ArchiveKind::Epub,
        ),
{
    reveal_strlit("application/msword");
    reveal_strlit("application/vnd.ms-excel");
    reveal_strlit("application/vnd.ms-powerpoint");
    reveal_strlit("application/vnd.ms-outlook");
    reveal_strlit("application/vnd.visio");
    reveal_strlit("application/rtf");
    reveal_strlit("application/x-chm");
    reveal_strlit("application/vnd.ms-htmlhelp");
    reveal_strlit("application/vnd.oasis.opendocument.text");
    reveal_strlit("application/vnd.oasis.opendocument.spreadsheet");
    reveal_strlit("application/vnd.oasis.opendocument.presentation");
    reveal_strlit("application/x-mobipocket-ebook");
    reveal_strlit("image/vnd.djvu");
    reveal_strlit("application/vnd.apple.keynote");
    reveal_strlit("application/vnd.apple.pages");
    reveal_strlit("application/vnd.apple.numbers");
    reveal_strlit("application/vnd.ms-works");
    reveal_strlit("application/vnd.wordperfect");
    reveal_strlit("text/plain");
    reveal_strlit("text/html");
    reveal_strlit("text/css");
    reveal_strlit("text/javascript");
    reveal_strlit("text/xml");
    reveal_strlit("text/csv");
    reveal_strlit("application/json");
    reveal_strlit("application/xml");
    reveal_strlit("text/markdown");
    reveal_strlit("application/pdf");
    reveal_strlit("application/epub+zip");
    let t = tika_formats();
    let p = plain_formats();
    if mime == "text/plain"@ || mime == "text/html"@ || mime == "text/css"@ || mime
        == "text/javascript"@ || mime == "text/xml"@ || mime == "text/csv"@ || mime
        == "application/json"@ || mime == "application/xml"@ || mime == "text/markdown"@ {
        assert forall|k: int| 0 <= k < t.len() implies #[trigger] t[k] != mime by {
            if t[k].len() == mime.len() {
                assert(t[k][0] != mime[0] || t[k][12] != mime[12]);
            }
        }
        let j: int = if mime == "text/plain"@ {
            0
        } else if mime == "text/html"@ {
            1
        } else if mime == "text/css"@ {
            2
        } else if mime == "text/javascript"@ {
            3
        } else if mime == "text/xml"@ {
            4
        } else if mime == "text/csv"@ {
            5
        } else if mime == "application/json"@ {
            6
        } else if mime == "application/xml"@ {
            7
        } else {
            8
        };
        assert(p[j] == mime);
    }
    if mime == "application/pdf"@ || mime == "application/epub+zip"@ {
        lemma_pdf_and_epub_unlisted(mime);
    }
}

proof fn lemma_pdf_and_epub_unlisted(mime: Seq<char>)
    requires
        mime == "application/pdf"@ || mime == "application/epub+zip"@,
    ensures
        !tika_formats().contains(mime),
        !plain_formats().contains(mime),
        !ooxml_formats().contains(mime),
        mime == "application/epub+zip"@ ==> mime != "application/pdf"@,
{
    reveal_strlit("application/pdf");
    reveal_strlit("application/epub+zip");
    assert("application/pdf"@.len() == 15);
    assert("application/epub+zip"@.len() == 20);
    assert(mime.len() == 15 || mime.len() == 20);
    lemma_short_format_names();
    lemma_ooxml_long_names();
    let t = tika_formats();
    let p = plain_formats();
    let o = ooxml_formats();
    assert forall|k: int| 0 <= k < o.len() implies #[trigger] o[k] != mime by {}
    if mime == "application/pdf"@ {
        reveal_strlit("application/rtf");
        reveal_strlit("text/javascript");
        reveal_strlit("application/xml");
        assert forall|k: int| 0 <= k < t.len() implies #[trigger] t[k] != mime by {
            if t[k].len() == 15 {
                assert(t[k] == "application/rtf"@) by {
                    lemma_tika_names_of_length_15(k);
                }
                assert(t[k][12] != mime[12]);
            }
        }
        assert forall|k: int| 0 <= k < p.len() implies #[trigger] p[k] != mime by {
            if p[k].len() == 15 {
                lemma_plain_names_of_length_15(k);
                assert(p[k][0] != mime[0] || p[k][12] != mime[12]);
            }
        }
    } else {
        lemma_no_names_of_length_20();
    }
}

proof fn lemma_tika_names_of_length_15(k: int)
    requires
        0 <= k < tika_formats().len(),
        tika_formats()[k].len() == 15,
    ensures
        tika_formats()[k] == "application/rtf"@,
{
    reveal_strlit("application/msword");
    reveal_strlit("application/vnd.ms-excel");
    reveal_strlit("application/vnd.ms-powerpoint");
    reveal_strlit("application/vnd.ms-outlook");
    reveal_strlit("application/vnd.visio");
    reveal_strlit("application/rtf");
    reveal_strlit("application/x-chm");
    reveal_strlit("application/vnd.ms-htmlhelp");
    reveal_strlit("application/vnd.oasis.opendocument.text");
    reveal_strlit("application/vnd.oasis.opendocument.spreadsheet");
    reveal_strlit("application/vnd.oasis.opendocument.presentation");
    reveal_strlit("application/x-mobipocket-ebook");
    reveal_strlit("image/vnd.djvu");
    reveal_strlit("application/vnd.apple.keynote");
    reveal_strlit("application/vnd.apple.pages");
    reveal_strlit("application/vnd.apple.numbers");
    reveal_strlit("application/vnd.ms-works");
    reveal_strlit("application/vnd.wordperfect");
}

proof fn lemma_plain_names_of_length_15(k: int)
    requires
        0 <= k < plain_formats().len(),
        plain_formats()[k].len() == 15,
    ensures
        plain_formats()[k] == "text/javascript"@ || plain_formats()[k] == "application/xml"@,
{
    reveal_strlit("text/plain");
    reveal_strlit("text/html");
    reveal_strlit("text/css");
    reveal_strlit("text/javascript");
    reveal_strlit("text/xml");
    reveal_strlit("text/csv");
    reveal_strlit("application/json");
    reveal_strlit("application/xml");
    reveal_strlit("text/markdown");
}

proof fn lemma_no_names_of_length_20()
    ensures
        forall|k: int| 0 <= k < tika_formats().len() ==> #[trigger] tika_formats()[k].len() != 20,
        forall|k: int| 0 <= k < plain_formats().len() ==> #[trigger] plain_formats()[k].len() != 20,
{
    reveal_strlit("application/msword");
    reveal_strlit("application/vnd.ms-excel");
    reveal_strlit("application/vnd.ms-powerpoint");
    reveal_strlit("application/vnd.ms-outlook");
    reveal_strlit("application/vnd.visio");
    reveal_strlit("application/rtf");
    reveal_strlit("application/x-chm");
    reveal_strlit("application/vnd.ms-htmlhelp");
    reveal_strlit("application/vnd.oasis.opendocument.text");
    reveal_strlit("application/vnd.oasis.opendocument.spreadsheet");
    reveal_strlit("application/vnd.oasis.opendocument.presentation");
    reveal_strlit("application/x-mobipocket-ebook");
    reveal_strlit("image/vnd.djvu");
    reveal_strlit("application/vnd.apple.keynote");
    reveal_strlit("application/vnd.apple.pages");
    reveal_strlit("application/vnd.apple.numbers");
    reveal_strlit("application/vnd.ms-works");
    reveal_strlit("application/vnd.wordperfect");
    reveal_strlit("text/plain");
    reveal_strlit("text/html");
    reveal_strlit("text/css");
    reveal_strlit("text/javascript");
    reveal_strlit("text/xml");
    reveal_strlit("text/csv");
    reveal_strlit("application/json");
    reveal_strlit("application/xml");
    reveal_strlit("text/markdown");
}

/// The names of the Office Open XML formats are 50 characters or longer.
proof fn lemma_ooxml_long_names()
    ensures
        forall|j: int| 0 <= j < ooxml_formats().len() ==> #[trigger] ooxml_formats()[j].len() >= 50,
{
    reveal_strlit("application/vnd.openxmlformats-officedocument.wordprocessingml.document");
    reveal_strlit("application/vnd.openxmlformats-officedocument.spreadsheetml.sheet");
    reveal_strlit("application/vnd.openxmlformats-officedocument.presentationml.presentation");
}

/// A file of any other type is decoded as text, or where it cannot be, its
/// readable strings are taken.
pub proof fn law_other_types(mime: Seq<char>, tika_available: bool)
    requires
        mime != "application/msword"@,
        mime != "application/vnd.ms-excel"@,
        mime != "application/vnd.ms-powerpoint"@,
        mime != "application/vnd.ms-outlook"@,
        mime != "application/vnd.visio"@,
        mime != "application/rtf"@,
        mime != "application/x-chm"@,
        mime != "application/vnd.ms-htmlhelp"@,
        mime != "application/vnd.oasis.opendocument.text"@,
        mime != "application/vnd.oasis.opendocument.spreadsheet"@,
        mime != "application/vnd.oasis.opendocument.presentation"@,
        mime != "application/x-mobipocket-ebook"@,
        mime != "image/vnd.djvu"@,
        mime != "application/vnd.apple.keynote"@,
        mime != "application/vnd.apple.pages"@,
        mime != "application/vnd.apple.numbers"@,
        mime != "application/vnd.ms-works"@,
        mime != "application/vnd.wordperfect"@,
        mime != "text/plain"@,
        mime != "text/html"@,
        mime != "text/css"@,
        mime != "text/javascript"@,
        mime != "text/xml"@,
        mime != "text/csv"@,
        mime != "application/json"@,
        mime != "application/xml"@,
        mime != "text/markdown"@,
        mime != "application/vnd.openxmlformats-officedocument.wordprocessingml.document"@,
        mime != "application/vnd.openxmlformats-officedocument.spreadsheetml.sheet"@,
        mime != "application/vnd.openxmlformats-officedocument.presentationml.presentation"@,
        mime != "application/pdf"@,
        mime != "application/epub+zip"@,
    ensures
        reader_for(mime, tika_available) == Reader::PlainOrBinary,
{
    let t = tika_formats();
    let p = plain_formats();
    let o = ooxml_formats();
    assert forall|k: int| 0 <= k < t.len() implies #[trigger] t[k] != mime by {}
    assert forall|k: int| 0 <= k < p.len() implies #[trigger] p[k] != mime by {}
    assert forall|k: int| 0 <= k < o.len() implies #[trigger] o[k] != mime by {}
}

/// Chooses how to read a file of type `mime`.
pub fn choose_reader(mime: &str, tika_available: bool) -> (r: Reader)
    ensures
        r == reader_for(mime@, tika_available),
{
    if is_tika_format(mime) {
        return if tika_available {
            Reader::Tika
        } else {
            Reader::PlainOrBinary
        };
    }
    let plain = [
        "text/plain",
        "text/html",
        "text/css",
        "text/javascript",
        "text/xml",
        "text/csv",
        "application/json",
        "application/xml",
        "text/markdown",
    ];
    let is_plain = one_of(mime, &plain);
    assert(plain@.map_values(|s: &str| s@) =~= plain_formats());
    if is_plain {
        return Reader::Plain;
    }
    let ooxml = [
        "application/vnd.openxmlformats-officedocument.wordprocessingml.document",
        "application/vnd.openxmlformats-officedocument.spreadsheetml.sheet",
        "application/vnd.openxmlformats-officedocument.presentationml.presentation",
    ];
    let is_ooxml = one_of(mime, &ooxml);
    assert(ooxml@.map_values(|s: &str| s@) =~= ooxml_formats());
    if is_ooxml {
        return Reader::Archive(ArchiveKind::OfficeOpenXml);
    }
    let m = chars_of(mime);
    if equals_str(&m, "application/pdf") {
        Reader::Pdf
    } else if equals_str(&m, "application/epub+zip") {
        Reader::Archive(ArchiveKind::Epub)
    } else {
        Reader::PlainOrBinary
    }
}

/// What a file holds, as read for its reader.
#[derive(Debug)]
pub enum FileData {
    /// The file's bytes.
    Bytes(Vec<u8>),
    /// The file's archive entries.
    Entries(Vec<ArchiveEntry>),
}

/// Why a file's text was not extracted.
#[derive(Debug)]
pub enum ExtractError {
    /// The format needs Tika (which is configured); carries the MIME type.
    NeedsTika(String),
}

/// Extracts the text of a file of type `mime` from its data read for
/// `choose_reader(mime, tika_available)`: the bytes, or for archives the
/// entries.
pub fn extract_text(mime: &str, data: &FileData, tika_available: bool) -> (r: Result<
    ExtractedContent,
    ExtractError,
>)
    requires
        (reader_for(mime@, tika_available) is Archive) == (data is Entries),
    ensures
        match r {
            Err(ExtractError::NeedsTika(m)) => reader_for(mime@, tika_available) == Reader::Tika
                && m@ == mime@,
            Ok(c) => {
                &&& reader_for(mime@, tika_available) != Reader::Tika
                &&& c.mime_type@ == mime@
                &&& !c.used_tika
                &&& match (reader_for(mime@, tika_available), data) {
                    (Reader::Archive(kind), FileData::Entries(es)) => c.text@ == archive_text(
                        kind,
                        es@,
                    ),
                    (Reader::Pdf, FileData::Bytes(b)) => c.text@ == pdf_text(utf8_lossy(b@)),
                    (_, FileData::Bytes(b)) => c.text@ == plain_text(b@),
                    _ => false,
                }
            },
        },
{
    match (choose_reader(mime, tika_available), data) {
        (Reader::Tika, _) => Err(ExtractError::NeedsTika(owned(mime))),
        (Reader::Archive(kind), FileData::Entries(es)) => Ok(extract_archive_text(kind, es, mime)),
        (Reader::Pdf, FileData::Bytes(b)) => Ok(extract_pdf_text(b.as_slice(), mime)),
        (_, FileData::Bytes(b)) => Ok(extract_plain_text(b.as_slice(), mime)),
        (_, FileData::Entries(_)) => {
            proof {
                assert(false);
            }
            Err(ExtractError::NeedsTika(owned(mime)))
        },
    }
}

}
