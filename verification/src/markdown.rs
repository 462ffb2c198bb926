//! Convert EPUB HTML content to Markdown.
use vstd::prelude::*;
use vstd::string::StrSliceExecFns;
use crate::text;
use crate::text::{
    char_is_ws, chars_of, fold_eq_exec, fold_find_from_exec, fold_rfind_before_exec,
    index_of_from_exec, matches_at_exec, push_char, push_str, string_of,
};

use crate::item_type::ItemType;
use crate::model::{EpubBook, EpubItem};
use crate::text::{text_of_bytes, utf8_lossy};
use std::sync::Arc;

verus! {

// ---------------------------------------------------------------------------
// The body of an HTML document
// ---------------------------------------------------------------------------

/// Where the content of the document starts: just after the `>` that closes
/// the first `<body` tag (letter case ignored), or at 0.
pub open spec fn body_start(html: Seq<char>) -> int {
    match text::fold_find_from(html, "<body"@, 0) {
        Some(pos) => match text::index_of_from(html, '>', pos) {
            Some(j) => j + 1,
            None => 0,
        },
        None => 0,
    }
}

/// Where the content of the document ends: at the last `</body>` (letter
/// case ignored), or at the end.
pub open spec fn body_end(html: Seq<char>) -> int {
    match text::fold_rfind_before(html, "</body>"@, html.len() as int) {
        Some(pos) => pos,
        None => html.len() as int,
    }
}

/// The body's start does not lie after its end; on other documents the
/// conversion has no defined result.
pub open spec fn body_bounds_ok(html: Seq<char>) -> bool {
    body_start(html) <= body_end(html)
}

/// The content between `<body ...>` and `</body>`.
pub open spec fn body_of(html: Seq<char>) -> Seq<char> {
    html.subrange(body_start(html), body_end(html))
}

pub proof fn lemma_find_from_bounds(s: Seq<char>, p: Seq<char>, i: int)
    ensures
        text::fold_find_from(s, p, i) matches Some(k) ==> i <= k && k + p.len() <= s.len(),
    decreases s.len() + 1 - i,
{
    if !(i < 0 || i + p.len() > s.len()) && !text::fold_matches_at(s, i, p) {
        lemma_find_from_bounds(s, p, i + 1);
    }
}

pub proof fn lemma_rfind_bounds(s: Seq<char>, p: Seq<char>, n: int)
    ensures
        text::fold_rfind_before(s, p, n) matches Some(k) ==> 0 <= k < n && k + p.len() <= s.len(),
    decreases n,
{
    if n > 0 && !text::fold_matches_at(s, n - 1, p) {
        lemma_rfind_bounds(s, p, n - 1);
    }
}

pub proof fn lemma_index_of_bounds(s: Seq<char>, c: char, i: int)
    ensures
        text::index_of_from(s, c, i) matches Some(k) ==> i <= k < s.len() && s[k] == c,
    decreases s.len() - i,
{
    if !(i < 0 || i >= s.len()) && s[i] != c {
        lemma_index_of_bounds(s, c, i + 1);
    }
}

/// Where the body starts and ends.
fn body_bounds(html: &[char]) -> (res: (usize, usize))
    ensures
        res.0 == body_start(html@),
        res.1 == body_end(html@),
        res.1 <= html@.len(),
{
    let n = html.len();
    let open_tag = chars_of("<body");
    let close_tag = chars_of("</body>");
    proof {
        lemma_find_from_bounds(html@, open_tag@, 0);
        lemma_rfind_bounds(html@, close_tag@, html@.len() as int);
    }
    let start = match fold_find_from_exec(html, open_tag.as_slice(), 0) {
        Some(pos) => {
            proof {
                lemma_index_of_bounds(html@, '>', pos as int);
            }
            match index_of_from_exec(html, '>', pos) {
                Some(j) => j + 1,
                None => 0,
            }
        },
        None => 0,
    };
    let end = match fold_rfind_before_exec(html, close_tag.as_slice(), html.len()) {
        Some(pos) => pos,
        None => html.len(),
    };
    (start, end)
}

/// Whether the body's start does not lie after its end.
pub fn body_bounds_ok_exec(html: &str) -> (res: bool)
    ensures
        res == body_bounds_ok(html@),
{
    let h = chars_of(html);
    let (start, end) = body_bounds(h.as_slice());
    start <= end
}

/// Extract content between <body> and </body> tags.
fn extract_body(html: &[char]) -> (res: Vec<char>)
    requires
        body_bounds_ok(html@),
    ensures
        res@ == body_of(html@),
{
    let (start, end) = body_bounds(html);
    let mut out: Vec<char> = Vec::new();
    let mut k = start;
    while k < end
        invariant
            start <= k <= end <= html@.len(),
            out@ == html@.subrange(start as int, k as int),
        decreases end - k,
    {
        out.push(html[k]);
        k += 1;
    }
    out
}

// ---------------------------------------------------------------------------
// Tags and entities in the character stream
// ---------------------------------------------------------------------------

/// The index just after the tag that starts with the `<` at `i`: after its
/// `>`, or the end of the input.
pub open spec fn tag_end(s: Seq<char>, i: int) -> int {
    match text::index_of_from(s, '>', i + 1) {
        Some(j) => j + 1,
        None => s.len() as int,
    }
}

/// The text of the tag that starts with the `<` at `i`, between `<` and `>`.
pub open spec fn tag_text(s: Seq<char>, i: int) -> Seq<char> {
    match text::index_of_from(s, '>', i + 1) {
        Some(j) => s.subrange(i + 1, j),
        None => s.subrange(i + 1, s.len() as int),
    }
}

/// Scans an entity name from index `k` on, having read `ent` so far: the
/// name ends at `;`, which is consumed and dropped, or with the character
/// that makes it longer than ten UTF-8 bytes, which is kept in it, or at the
/// end of the input. Gives the name and the index after it.
pub open spec fn entity_scan(s: Seq<char>, k: int, ent: Seq<char>) -> (Seq<char>, int)
    decreases s.len() - k,
{
    if k < 0 || k >= s.len() {
        (ent, k)
    } else if s[k] == ';' {
        (ent, k + 1)
    } else if text::utf8_len_of(ent.push(s[k])) > 10 {
        (ent.push(s[k]), k + 1)
    } else {
        entity_scan(s, k + 1, ent.push(s[k]))
    }
}

pub proof fn lemma_entity_scan_advances(s: Seq<char>, k: int, ent: Seq<char>)
    requires
        0 <= k,
    ensures
        entity_scan(s, k, ent).1 >= k,
        entity_scan(s, k, ent).1 <= s.len() || entity_scan(s, k, ent).1 == k,
    decreases s.len() - k,
{
    if k < s.len() && s[k] != ';' && !(text::utf8_len_of(ent.push(s[k])) > 10) {
        lemma_entity_scan_advances(s, k + 1, ent.push(s[k]));
    }
}

/// Consume a full HTML tag starting at the `<` at `i`, returning its text and
/// the index after it.
fn consume_tag(s: &[char], i: usize) -> (res: (Vec<char>, usize))
    requires
        i < s@.len(),
    ensures
        res.0@ == tag_text(s@, i as int),
        res.1 == tag_end(s@, i as int),
{
    let n = s.len();
    let mut tag: Vec<char> = Vec::new();
    let mut k = i + 1;
    while k < n
        invariant
            i + 1 <= k <= n,
            n == s@.len(),
            tag@ == s@.subrange(i + 1, k as int),
            text::index_of_from(s@, '>', i + 1) == text::index_of_from(s@, '>', k as int),
        decreases n - k,
    {
        if s[k] == '>' {
            return (tag, k + 1);
        }
        tag.push(s[k]);
        k += 1;
    }
    (tag, n)
}

/// Consume an HTML entity like &amp; or &#160; whose `&` is at `i`,
/// returning its name and the index after it.
fn consume_entity(s: &[char], i: usize) -> (res: (Vec<char>, usize))
    requires
        i < s@.len(),
    ensures
        (res.0@, res.1 as int) == entity_scan(s@, i + 1, Seq::empty()),
{
    let n = s.len();
    let mut ent: Vec<char> = Vec::new();
    let mut ent_bytes: usize = 0;
    let mut k = i + 1;
    while k < n
        invariant
            i + 1 <= k <= n,
            n == s@.len(),
            ent_bytes == text::utf8_len_of(ent@),
            ent_bytes <= 10,
            entity_scan(s@, i + 1, Seq::empty()) == entity_scan(s@, k as int, ent@),
        decreases n - k,
    {
        let c = s[k];
        if c == ';' {
            return (ent, k + 1);
        }
        let w = char_utf8_len(c);
        let ghost before = ent@;
        ent.push(c);
        assert(ent@.drop_last() == before);
        ent_bytes = ent_bytes + w;
        k += 1;
        if ent_bytes > 10 {
            return (ent, k);
        }
    }
    (ent, k)
}

/// The UTF-8 length of `c`.
fn char_utf8_len(c: char) -> (res: usize)
    ensures
        res == text::utf8_len(c),
{
    let v = c as u32;
    if v < 0x80 {
        1
    } else if v < 0x800 {
        2
    } else if v < 0x10000 {
        3
    } else {
        4
    }
}

// ---------------------------------------------------------------------------
// Entities
// ---------------------------------------------------------------------------

/// The value of `c` as a digit in base `radix` (at most 36).
pub open spec fn digit_value(c: char, radix: int) -> Option<int> {
    let d: int = if '0' <= c && c <= '9' {
        (c as int) - ('0' as int)
    } else if 'a' <= c && c <= 'z' {
        (c as int) - ('a' as int) + 10
    } else if 'A' <= c && c <= 'Z' {
        (c as int) - ('A' as int) + 10
    } else {
        99
    };
    if d < radix {
        Some(d)
    } else {
        None
    }
}

/// The number written by the digits `ds` in base `radix`, if they all are digits.
pub open spec fn digits_value(ds: Seq<char>, radix: int) -> Option<int>
    decreases ds.len(),
{
    if ds.len() == 0 {
        Some(0)
    } else {
        match (digits_value(ds.drop_last(), radix), digit_value(ds.last(), radix)) {
            (Some(v), Some(d)) => Some(v * radix + d),
            _ => None,
        }
    }
}

/// `s` read as an unsigned 32-bit number in base `radix`, as the standard
/// library reads one: an optional `+`, then at least one digit, and a value
/// that fits.
pub open spec fn parse_u32(s: Seq<char>, radix: int) -> Option<u32> {
    let ds = if s.len() > 0 && s[0] == '+' {
        s.drop_first()
    } else {
        s
    };
    if ds.len() == 0 {
        None
    } else {
        match digits_value(ds, radix) {
            Some(v) => if v <= u32::MAX {
                Some(v as u32)
            } else {
                None
            },
            None => None,
        }
    }
}

/// The character with code point `v`, if there is one.
pub open spec fn char_of(v: u32) -> Option<char> {
    if v < 0xd800 || (0xe000 <= v && v < 0x110000) {
        Some(v as char)
    } else {
        None
    }
}

/// The text an entity name stands for: the named entities the converter
/// knows, numeric references, and otherwise the entity as written.
pub open spec fn decode_entity_spec(e: Seq<char>) -> Seq<char> {
    if e == "amp"@ {
        "&"@
    } else if e == "lt"@ {
        "<"@
    } else if e == "gt"@ {
        ">"@
    } else if e == "quot"@ {
        "\""@
    } else if e == "apos"@ {
        "'"@
    } else if e == "nbsp"@ || e == "#160"@ {
        " "@
    } else if e == "mdash"@ || e == "#8212"@ {
        "\u{2014}"@
    } else if e == "ndash"@ || e == "#8211"@ {
        "\u{2013}"@
    } else if e == "lsquo"@ || e == "#8216"@ {
        "\u{2018}"@
    } else if e == "rsquo"@ || e == "#8217"@ {
        "\u{2019}"@
    } else if e == "ldquo"@ || e == "#8220"@ {
        "\u{201C}"@
    } else if e == "rdquo"@ || e == "#8221"@ {
        "\u{201D}"@
    } else if e == "hellip"@ || e == "#8230"@ {
        "\u{2026}"@
    } else if e.len() > 0 && e[0] == '#' {
        let num = if text::starts_with(e, "#x"@) {
            parse_u32(e.skip(2), 16)
        } else {
            parse_u32(e.skip(1), 10)
        };
        match num {
            Some(v) => match char_of(v) {
                Some(c) => seq![c],
                None => Seq::empty(),
            },
            None => Seq::empty(),
        }
    } else {
        "&"@ + e + ";"@
    }
}

/// The character with code point `v`, if there is one.
#[verifier::external_body]
fn char_from_u32(v: u32) -> (res: Option<char>)
    ensures
        res == char_of(v),
{
    char::from_u32(v)
}

proof fn lemma_digits_value_grows(ds: Seq<char>, radix: int, c: char)
    requires
        radix >= 2,
        digits_value(ds, radix) is Some,
        digit_value(c, radix) is Some,
    ensures
        digits_value(ds.push(c), radix) is Some,
        digits_value(ds.push(c), radix)->0 >= digits_value(ds, radix)->0,
        digits_value(ds.push(c), radix)->0 == digits_value(ds, radix)->0 * radix + digit_value(
            c,
            radix,
        )->0,
{
    assert(ds.push(c).drop_last() == ds);
    lemma_digits_value_nonneg(ds, radix);
    let v = digits_value(ds, radix)->0;
    let d = digit_value(c, radix)->0;
    assert(v * radix + d >= v) by (nonlinear_arith)
        requires
            v >= 0,
            radix >= 2,
            d >= 0,
    ;
}

proof fn lemma_digits_value_nonneg(ds: Seq<char>, radix: int)
    requires
        radix >= 2,
    ensures
        digits_value(ds, radix) matches Some(v) ==> v >= 0,
    decreases ds.len(),
{
    if ds.len() > 0 {
        lemma_digits_value_nonneg(ds.drop_last(), radix);
        if let Some(v) = digits_value(ds.drop_last(), radix) {
            if let Some(d) = digit_value(ds.last(), radix) {
                assert(v * radix + d >= 0) by (nonlinear_arith)
                    requires
                        v >= 0,
                        radix >= 2,
                        d >= 0,
                ;
            }
        }
    }
}

proof fn lemma_digits_value_invalid(ds: Seq<char>, radix: int, c: char)
    requires
        digit_value(c, radix) is None,
    ensures
        digits_value(ds.push(c), radix) is None,
{
    assert(ds.push(c).drop_last() == ds);
}

proof fn lemma_digits_value_none_grows(ds: Seq<char>, radix: int, c: char)
    requires
        digits_value(ds, radix) is None,
    ensures
        digits_value(ds.push(c), radix) is None,
{
    assert(ds.push(c).drop_last() == ds);
}

/// The value of a digit character in base `radix`.
fn digit_of(c: char, radix: u32) -> (res: Option<u32>)
    requires
        radix <= 36,
    ensures
        res matches Some(d) ==> digit_value(c, radix as int) == Some(d as int),
        res is None ==> digit_value(c, radix as int) is None,
{
    let d: u32 = if '0' <= c && c <= '9' {
        (c as u32) - ('0' as u32)
    } else if 'a' <= c && c <= 'z' {
        (c as u32) - ('a' as u32) + 10
    } else if 'A' <= c && c <= 'Z' {
        (c as u32) - ('A' as u32) + 10
    } else {
        99
    };
    if d < radix {
        Some(d)
    } else {
        None
    }
}

/// Parse `s[from..]` as an unsigned 32-bit number in base `radix`.
fn parse_u32_exec(s: &[char], from: usize, radix: u32) -> (res: Option<u32>)
    requires
        from <= s@.len(),
        2 <= radix <= 36,
    ensures
        res == parse_u32(s@.skip(from as int), radix as int),
{
    let n = s.len();
    let ghost t = s@.skip(from as int);
    let mut start = from;
    if start < n && s[start] == '+' {
        start += 1;
    }
    let ghost ds = if t.len() > 0 && t[0] == '+' {
        t.drop_first()
    } else {
        t
    };
    assert(ds == s@.skip(start as int));
    if start == n {
        return None;
    }
    let mut acc: u64 = 0;
    let mut over = false;
    let mut k = start;
    while k < n
        invariant
            start <= k <= n,
            start < n,
            n == s@.len(),
            2 <= radix <= 36,
            t == s@.skip(from as int),
            ds == (if t.len() > 0 && t[0] == '+' {
                t.drop_first()
            } else {
                t
            }),
            ds == s@.skip(start as int),
            digits_value(s@.subrange(start as int, k as int), radix as int) is Some,
            !over ==> digits_value(s@.subrange(start as int, k as int), radix as int) == Some(
                acc as int,
            ),
            !over ==> acc <= u32::MAX,
            over ==> digits_value(s@.subrange(start as int, k as int), radix as int)->0
                > u32::MAX,
        decreases n - k,
    {
        let ghost pre = s@.subrange(start as int, k as int);
        assert(s@.subrange(start as int, k + 1) == pre.push(s@[k as int]));
        match digit_of(s[k], radix) {
            None => {
                proof {
                    lemma_digits_value_invalid(pre, radix as int, s@[k as int]);
                    lemma_digits_value_stays_none(s@, start as int, k + 1, radix as int);
                    assert(s@.subrange(start as int, n as int) == ds);
                }
                return None;
            },
            Some(d) => {
                proof {
                    lemma_digits_value_grows(pre, radix as int, s@[k as int]);
                }
                if !over {
                    assert(acc * (radix as u64) + (d as u64) <= 0xffff_ffff_ffff_ffff) by (nonlinear_arith)
                        requires
                            acc <= 0xffff_ffff,
                            radix <= 36,
                            d <= 36,
                    ;
                    let next: u64 = acc * (radix as u64) + (d as u64);
                    if next > 0xffff_ffff {
                        over = true;
                    } else {
                        acc = next;
                    }
                }
            },
        }
        k += 1;
    }
    assert(s@.subrange(start as int, n as int) == ds);
    if over {
        None
    } else {
        Some(acc as u32)
    }
}

proof fn lemma_digits_value_stays_none(s: Seq<char>, start: int, k: int, radix: int)
    requires
        0 <= start <= k <= s.len(),
        digits_value(s.subrange(start, k), radix) is None,
    ensures
        digits_value(s.subrange(start, s.len() as int), radix) is None,
    decreases s.len() - k,
{
    if k < s.len() {
        assert(s.subrange(start, k + 1) == s.subrange(start, k).push(s[k]));
        lemma_digits_value_none_grows(s.subrange(start, k), radix, s[k]);
        lemma_digits_value_stays_none(s, start, k + 1, radix);
    }
}

/// Whether `e` spells the ASCII text `t`.
fn seq_is(e: &[char], t: &str) -> (res: bool)
    ensures
        res == (e@ == t@),
{
    let tc = chars_of(t);
    if e.len() != tc.len() {
        return false;
    }
    let r = matches_at_exec(e, 0, tc.as_slice());
    proof {
        assert(e@.subrange(0, tc@.len() as int) =~= e@);
    }
    r
}

/// Decode common HTML entities.
fn decode_entity(e: &[char]) -> (res: Vec<char>)
    ensures
        res@ == decode_entity_spec(e@),
{
    let lit = if seq_is(e, "amp") {
        "&"
    } else if seq_is(e, "lt") {
        "<"
    } else if seq_is(e, "gt") {
        ">"
    } else if seq_is(e, "quot") {
        "\""
    } else if seq_is(e, "apos") {
        "'"
    } else if seq_is(e, "nbsp") || seq_is(e, "#160") {
        " "
    } else if seq_is(e, "mdash") || seq_is(e, "#8212") {
        "\u{2014}"
    } else if seq_is(e, "ndash") || seq_is(e, "#8211") {
        "\u{2013}"
    } else if seq_is(e, "lsquo") || seq_is(e, "#8216") {
        "\u{2018}"
    } else if seq_is(e, "rsquo") || seq_is(e, "#8217") {
        "\u{2019}"
    } else if seq_is(e, "ldquo") || seq_is(e, "#8220") {
        "\u{201C}"
    } else if seq_is(e, "rdquo") || seq_is(e, "#8221") {
        "\u{201D}"
    } else if seq_is(e, "hellip") || seq_is(e, "#8230") {
        "\u{2026}"
    } else if e.len() > 0 && e[0] == '#' {
        let hx = chars_of("#x");
        let num = if matches_at_exec(e, 0, hx.as_slice()) {
            assert(hx@.len() == 2) by {
                reveal_strlit("#x");
            }
            parse_u32_exec(e, 2, 16)
        } else {
            parse_u32_exec(e, 1, 10)
        };
        let mut out: Vec<char> = Vec::new();
        if let Some(v) = num {
            if let Some(c) = char_from_u32(v) {
                out.push(c);
            }
        }
        return out;
    } else {
        let mut out = chars_of("&");
        let mut k: usize = 0;
        while k < e.len()
            invariant
                k <= e@.len(),
                out@ == "&"@ + e@.subrange(0, k as int),
            decreases e@.len() - k,
        {
            out.push(e[k]);
            k += 1;
        }
        let semi = chars_of(";");
        let mut j: usize = 0;
        while j < semi.len()
            invariant
                j <= semi@.len(),
                out@ == "&"@ + e@ + semi@.subrange(0, j as int),
            decreases semi@.len() - j,
        {
            out.push(semi[j]);
            j += 1;
        }
        assert(e@.subrange(0, e@.len() as int) == e@);
        return out;
    };
    chars_of(lit)
}

// ---------------------------------------------------------------------------
// Tags
// ---------------------------------------------------------------------------

/// The first index at or after `i` that holds white space.
pub open spec fn first_ws_from(s: Seq<char>, i: int) -> Option<int>
    decreases s.len() - i,
{
    if i < 0 || i >= s.len() {
        None
    } else if text::is_ws(s[i]) {
        Some(i)
    } else {
        first_ws_from(s, i + 1)
    }
}

/// The tag's first word: its text up to the first white space.
pub open spec fn tag_word(tag: Seq<char>) -> Seq<char> {
    match first_ws_from(tag, 0) {
        Some(k) => tag.take(k),
        None => tag,
    }
}

/// `md` ended by a newline unless it is empty or already ends with one.
pub open spec fn ensure_nl(md: Seq<char>) -> Seq<char> {
    if md.len() > 0 && md.last() != '\n' {
        md.push('\n')
    } else {
        md
    }
}

/// The value of the attribute `name` in the tag text: what follows the first
/// `name="` (letter case ignored) up to the next `"`.
pub open spec fn attr_value(tag: Seq<char>, name: Seq<char>) -> Option<Seq<char>> {
    let needle = name + "=\""@;
    match text::fold_find_from(tag, needle, 0) {
        Some(pos) => {
            let start = pos + needle.len();
            match text::index_of_from(tag, '"', start) {
                Some(end) => Some(tag.subrange(start, end)),
                None => None,
            }
        },
        None => None,
    }
}

/// The heading level that a tag name stands for (1 to 6), or 0.
pub open spec fn heading_level(name: Seq<char>) -> int {
    if text::fold_eq(name, "h1"@) {
        1
    } else if text::fold_eq(name, "h2"@) {
        2
    } else if text::fold_eq(name, "h3"@) {
        3
    } else if text::fold_eq(name, "h4"@) {
        4
    } else if text::fold_eq(name, "h5"@) {
        5
    } else if text::fold_eq(name, "h6"@) {
        6
    } else {
        0
    }
}

/// The Markdown marker that opens a heading of the given level.
pub open spec fn heading_marker(level: int) -> Seq<char> {
    if level == 1 {
        "# "@
    } else if level == 2 {
        "## "@
    } else if level == 3 {
        "### "@
    } else if level == 4 {
        "#### "@
    } else if level == 5 {
        "##### "@
    } else {
        "###### "@
    }
}

/// The Markdown text after a tag has been read: `md` with what the tag adds.
/// Tag names are compared without letter case; a name after `/` closes.
pub open spec fn apply_tag(tag: Seq<char>, md: Seq<char>) -> Seq<char> {
    let w = tag_word(tag);
    let closing = w.len() > 0 && w[0] == '/';
    let name = if closing {
        w.drop_first()
    } else {
        w
    };
    if heading_level(name) != 0 {
        if closing {
            md + "\n\n"@
        } else {
            ensure_nl(md) + heading_marker(heading_level(name))
        }
    } else if text::fold_eq(name, "p"@) || text::fold_eq(name, "div"@) {
        if closing {
            md + "\n\n"@
        } else {
            ensure_nl(md)
        }
    } else if text::fold_eq(name, "br"@) {
        md.push('\n')
    } else if text::fold_eq(name, "b"@) || text::fold_eq(name, "strong"@) {
        md + "**"@
    } else if text::fold_eq(name, "i"@) || text::fold_eq(name, "em"@) {
        md.push('*')
    } else if text::fold_eq(name, "a"@) {
        if closing {
            md.push(']')
        } else {
            match attr_value(tag, "href"@) {
                Some(href) => md.push('[') + "\u{0}HREF:"@ + href + "\u{0}"@,
                None => md,
            }
        }
    } else if text::fold_eq(name, "li"@) {
        if !closing {
            ensure_nl(md) + "- "@
        } else {
            md.push('\n')
        }
    } else if text::fold_eq(name, "blockquote"@) {
        if !closing {
            ensure_nl(md) + "> "@
        } else {
            md + "\n\n"@
        }
    } else if text::fold_eq(name, "hr"@) {
        ensure_nl(md) + "---\n\n"@
    } else {
        md
    }
}

/// Appends a literal to a character buffer.
fn push_lit(md: &mut Vec<char>, t: &str)
    ensures
        final(md)@ == old(md)@ + t@,
{
    let tc = chars_of(t);
    push_seq(md, tc.as_slice());
}

/// Appends characters to a character buffer.
fn push_seq(md: &mut Vec<char>, t: &[char])
    ensures
        final(md)@ == old(md)@ + t@,
{
    let ghost m0 = md@;
    let mut k: usize = 0;
    while k < t.len()
        invariant
            k <= t@.len(),
            md@ == m0 + t@.subrange(0, k as int),
        decreases t@.len() - k,
    {
        md.push(t[k]);
        k += 1;
    }
    assert(t@.subrange(0, t@.len() as int) == t@);
}

/// Ensure the buffer ends with a newline (avoid double newlines before headings).
fn ensure_newline(md: &mut Vec<char>)
    ensures
        final(md)@ == ensure_nl(old(md)@),
{
    let n = md.len();
    if n > 0 && md[n - 1] != '\n' {
        md.push('\n');
    }
}

/// Extract an attribute value from a tag string.
fn extract_attr(tag: &[char], attr_name: &str) -> (res: Option<Vec<char>>)
    ensures
        res matches Some(v) ==> attr_value(tag@, attr_name@) == Some(v@),
        res is None ==> attr_value(tag@, attr_name@) is None,
{
    let tag_len = tag.len();
    let mut needle = chars_of(attr_name);
    push_lit(&mut needle, "=\"");
    proof {
        lemma_find_from_bounds(tag@, needle@, 0);
    }
    match fold_find_from_exec(tag, needle.as_slice(), 0) {
        Some(pos) => {
            let start = pos + needle.len();
            proof {
                lemma_index_of_bounds(tag@, '"', start as int);
            }
            match index_of_from_exec(tag, '"', start) {
                Some(end) => {
                    let mut v: Vec<char> = Vec::new();
                    let mut k = start;
                    while k < end
                        invariant
                            start <= k <= end <= tag@.len(),
                            v@ == tag@.subrange(start as int, k as int),
                        decreases end - k,
                    {
                        v.push(tag[k]);
                        k += 1;
                    }
                    Some(v)
                },
                None => None,
            }
        },
        None => None,
    }
}

/// The first index of white space in `s` at or after `from`.
fn first_ws_from_exec(s: &[char], from: usize) -> (res: Option<usize>)
    ensures
        res matches Some(k) ==> first_ws_from(s@, from as int) == Some(k as int) && k < s@.len(),
        res is None ==> first_ws_from(s@, from as int) is None,
{
    let mut i = from;
    while i < s.len()
        invariant
            from <= i,
            first_ws_from(s@, from as int) == first_ws_from(s@, i as int),
        decreases s@.len() - i,
    {
        if char_is_ws(s[i]) {
            return Some(i);
        }
        i += 1;
    }
    None
}

/// Handle an HTML tag and write appropriate Markdown.
fn handle_tag(tag: &[char], md: &mut Vec<char>)
    ensures
        final(md)@ == apply_tag(tag@, old(md)@),
{
    let wend = match first_ws_from_exec(tag, 0) {
        Some(k) => k,
        None => tag.len(),
    };
    let closing = wend > 0 && tag[0] == '/';
    let mut name: Vec<char> = Vec::new();
    let mut k: usize = if closing {
        1
    } else {
        0
    };
    let ghost w = tag_word(tag@);
    assert(w == tag@.subrange(0, wend as int));
    while k < wend
        invariant
            k <= wend <= tag@.len(),
            (if closing {
                1int
            } else {
                0int
            }) <= k,
            name@ == tag@.subrange(
                if closing {
                    1int
                } else {
                    0int
                },
                k as int,
            ),
        decreases wend - k,
    {
        name.push(tag[k]);
        k += 1;
    }
    proof {
        if closing {
            assert(name@ == w.drop_first());
        } else {
            assert(name@ == w);
        }
    }
    let nm = name.as_slice();
    let level: usize = if fold_eq_exec(nm, "h1") {
        1
    } else if fold_eq_exec(nm, "h2") {
        2
    } else if fold_eq_exec(nm, "h3") {
        3
    } else if fold_eq_exec(nm, "h4") {
        4
    } else if fold_eq_exec(nm, "h5") {
        5
    } else if fold_eq_exec(nm, "h6") {
        6
    } else {
        0
    };
    if level != 0 {
        if closing {
            push_lit(md, "\n\n");
        } else {
            ensure_newline(md);
            let marker = if level == 1 {
                "# "
            } else if level == 2 {
                "## "
            } else if level == 3 {
                "### "
            } else if level == 4 {
                "#### "
            } else if level == 5 {
                "##### "
            } else {
                "###### "
            };
            push_lit(md, marker);
        }
    } else if fold_eq_exec(nm, "p") || fold_eq_exec(nm, "div") {
        if closing {
            push_lit(md, "\n\n");
        } else {
            ensure_newline(md);
        }
    } else if fold_eq_exec(nm, "br") {
        md.push('\n');
    } else if fold_eq_exec(nm, "b") || fold_eq_exec(nm, "strong") {
        push_lit(md, "**");
    } else if fold_eq_exec(nm, "i") || fold_eq_exec(nm, "em") {
        md.push('*');
    } else if fold_eq_exec(nm, "a") {
        if closing {
            md.push(']');
        } else if let Some(href) = extract_attr(tag, "href") {
            md.push('[');
            push_lit(md, "\u{0}HREF:");
            push_seq(md, href.as_slice());
            push_lit(md, "\u{0}");
        }
    } else if fold_eq_exec(nm, "li") {
        if !closing {
            ensure_newline(md);
            push_lit(md, "- ");
        } else {
            md.push('\n');
        }
    } else if fold_eq_exec(nm, "blockquote") {
        if !closing {
            ensure_newline(md);
            push_lit(md, "> ");
        } else {
            push_lit(md, "\n\n");
        }
    } else if fold_eq_exec(nm, "hr") {
        ensure_newline(md);
        push_lit(md, "---\n\n");
    }
}

// ---------------------------------------------------------------------------
// The conversion
// ---------------------------------------------------------------------------

/// The Markdown made from `s` from index `i` on, after `md` was made from
/// what came before: a tag changes the text as `apply_tag` says, an entity
/// is decoded, and any other character is copied.
pub open spec fn convert_from(s: Seq<char>, i: int, md: Seq<char>) -> Seq<char>
    decreases s.len() - i,
{
    if i < 0 || i >= s.len() {
        md
    } else if s[i] == '<' {
        proof {
            lemma_index_of_bounds(s, '>', i + 1);
        }
        convert_from(s, tag_end(s, i), apply_tag(tag_text(s, i), md))
    } else if s[i] == '&' {
        proof {
            lemma_entity_scan_advances(s, i + 1, Seq::empty());
        }
        let (e, k) = entity_scan(s, i + 1, Seq::empty());
        convert_from(s, k, md + decode_entity_spec(e))
    } else {
        convert_from(s, i + 1, md.push(s[i]))
    }
}

/// The link that a link marker `[`, NUL, `HREF:` url, NUL, text, `]` at `i`
/// describes: its text, its url and the index after the `]`.
pub open spec fn link_at(s: Seq<char>, i: int) -> Option<(Seq<char>, Seq<char>, int)> {
    if 0 <= i && i + 1 < s.len() && s[i] == '[' && s[i + 1] == '\u{0}' {
        match text::index_of_from(s, '\u{0}', i + 2) {
            Some(e) => {
                let data = s.subrange(i + 2, e);
                if text::starts_with(data, "HREF:"@) {
                    match text::index_of_from(s, ']', e + 1) {
                        Some(c) => Some((s.subrange(e + 1, c), data.skip(5), c + 1)),
                        None => None,
                    }
                } else {
                    None
                }
            },
            None => None,
        }
    } else {
        None
    }
}

/// `s` from index `i` on with each link marker turned into a Markdown link
/// `[text](url)`, its text trimmed.
pub open spec fn fix_links_from(s: Seq<char>, i: int) -> Seq<char>
    decreases s.len() - i,
{
    if i < 0 || i >= s.len() {
        Seq::empty()
    } else {
        match link_at(s, i) {
            Some((t, href, next)) => {
                proof {
                    lemma_link_at_advances(s, i);
                }
                "["@ + text::trim(t) + "]("@ + href + ")"@ + fix_links_from(s, next)
            },
            None => seq![s[i]] + fix_links_from(s, i + 1),
        }
    }
}

pub proof fn lemma_link_at_advances(s: Seq<char>, i: int)
    ensures
        link_at(s, i) matches Some((t, h, next)) ==> i < next <= s.len(),
{
    if 0 <= i && i + 1 < s.len() && s[i] == '[' && s[i + 1] == '\u{0}' {
        lemma_index_of_bounds(s, '\u{0}', i + 2);
        if let Some(e) = text::index_of_from(s, '\u{0}', i + 2) {
            lemma_index_of_bounds(s, ']', e + 1);
        }
    }
}

/// `s` from index `i` on with runs of white space collapsed: a newline is
/// kept while at most two came in a row, other white space becomes one
/// space per run. `nl` counts the newlines just before `i`, and `sp` says
/// whether a space was just written.
pub open spec fn collapse_from(s: Seq<char>, i: int, nl: int, sp: bool) -> Seq<char>
    decreases s.len() - i,
{
    if i < 0 || i >= s.len() {
        Seq::empty()
    } else if s[i] == '\n' {
        (if nl + 1 <= 2 {
            seq!['\n']
        } else {
            Seq::empty()
        }) + collapse_from(s, i + 1, nl + 1, false)
    } else if text::is_ws(s[i]) {
        (if !sp {
            seq![' ']
        } else {
            Seq::empty()
        }) + collapse_from(s, i + 1, 0, true)
    } else {
        seq![s[i]] + collapse_from(s, i + 1, 0, false)
    }
}

/// The lines of `s` from index `i` on, each without trailing white space,
/// joined by newlines.
pub open spec fn trim_lines_from(s: Seq<char>, i: int) -> Seq<char>
    decreases s.len() + 1 - i,
{
    if i < 0 || i > s.len() {
        Seq::empty()
    } else {
        match text::index_of_from(s, '\n', i) {
            Some(j) => {
                proof {
                    lemma_index_of_bounds(s, '\n', i);
                }
                text::trim_end(s.subrange(i, j)) + "\n"@ + trim_lines_from(s, j + 1)
            },
            None => text::trim_end(s.subrange(i, s.len() as int)),
        }
    }
}

/// The finished Markdown made from raw converted text: links fixed, white
/// space collapsed, lines trimmed at their end, and the whole trimmed.
pub open spec fn normalize(t: Seq<char>) -> Seq<char> {
    text::trim(trim_lines_from(collapse_from(fix_links_from(t, 0), 0, 0, false), 0))
}

/// The Markdown for an HTML document.
pub open spec fn markdown_of(html: Seq<char>) -> Seq<char> {
    normalize(convert_from(body_of(html), 0, Seq::empty()))
}

/// The Markdown of a document neither starts nor ends with white space.
pub proof fn lemma_markdown_trimmed(html: Seq<char>)
    ensures
        markdown_of(html).len() > 0 ==> !text::is_ws(markdown_of(html)[0]) && !text::is_ws(
            markdown_of(html).last(),
        ),
{
    text::lemma_trim_ends(trim_lines_from(collapse_from(fix_links_from(convert_from(body_of(html), 0, Seq::empty()), 0), 0, 0, false), 0));
}

/// Every line of `t` ends without white space: the character before each
/// newline is another newline or not white space.
pub open spec fn lines_trimmed(t: Seq<char>) -> bool {
    forall|k: int| 0 < k < t.len() && #[trigger] t[k] == '\n' ==> t[k - 1] == '\n' || !text::is_ws(t[k - 1])
}

proof fn lemma_index_of_first(s: Seq<char>, c: char, i: int)
    requires
        0 <= i,
    ensures
        match text::index_of_from(s, c, i) {
            Some(j) => forall|k: int| i <= k < j ==> s[k] != c,
            None => forall|k: int| i <= k < s.len() ==> s[k] != c,
        },
    decreases s.len() - i,
{
    if i < s.len() && s[i] != c {
        lemma_index_of_first(s, c, i + 1);
    }
}

proof fn lemma_trim_start_suffix(s: Seq<char>)
    ensures
        0 <= trim_start_of(s) <= s.len(),
        text::trim_start(s) == s.subrange(trim_start_of(s), s.len() as int),
    decreases s.len(),
{
    if s.len() > 0 && text::is_ws(s[0]) {
        lemma_trim_start_suffix(s.drop_first());
        assert(s.drop_first().subrange(trim_start_of(s.drop_first()), s.drop_first().len() as int)
            =~= s.subrange(trim_start_of(s), s.len() as int));
    } else {
        assert(s.subrange(0, s.len() as int) =~= s);
    }
}

/// How many leading characters `trim_start` removes.
pub open spec fn trim_start_of(s: Seq<char>) -> int
    decreases s.len(),
{
    if s.len() > 0 && text::is_ws(s[0]) {
        1 + trim_start_of(s.drop_first())
    } else {
        0
    }
}

proof fn lemma_lines_trimmed_sub(t: Seq<char>, a: int, b: int)
    requires
        lines_trimmed(t),
        0 <= a <= b <= t.len(),
    ensures
        lines_trimmed(t.subrange(a, b)),
{
    let u = t.subrange(a, b);
    assert forall|k: int| 0 < k < u.len() && #[trigger] u[k] == '\n' implies u[k - 1] == '\n'
        || !text::is_ws(u[k - 1]) by {
        assert(u[k] == t[a + k] && u[k - 1] == t[a + k - 1]);
    }
}

proof fn lemma_trim_lines_from_trimmed(s: Seq<char>, i: int)
    requires
        0 <= i,
    ensures
        lines_trimmed(trim_lines_from(s, i)),
    decreases s.len() + 1 - i,
{
    if i <= s.len() {
        lemma_index_of_bounds(s, '\n', i);
        lemma_index_of_first(s, '\n', i);
        match text::index_of_from(s, '\n', i) {
            Some(j) => {
                let seg = s.subrange(i, j);
                let te = text::trim_end(seg);
                text::lemma_trim_end_prefix(seg);
                lemma_trim_lines_from_trimmed(s, j + 1);
                let rest = trim_lines_from(s, j + 1);
                let t = te + "\n"@ + rest;
                assert(t == trim_lines_from(s, i));
                assert("\n"@.len() == 1 && "\n"@[0] == '\n') by {
                    reveal_strlit("\n");
                }
                assert forall|k: int| 0 < k < t.len() && #[trigger] t[k] == '\n' implies t[k - 1]
                    == '\n' || !text::is_ws(t[k - 1]) by {
                    if k < te.len() {
                        assert(t[k] == te[k] && te[k] == seg[k] && seg[k] == s[i + k]);
                    } else if k == te.len() {
                        assert(t[k - 1] == te.last());
                    } else if k == te.len() + 1 {
                        assert(t[k - 1] == '\n');
                    } else {
                        let r = k - te.len() - 1;
                        assert(t[k] == rest[r] && t[k - 1] == rest[r - 1]);
                    }
                }
            },
            None => {
                let seg = s.subrange(i, s.len() as int);
                let te = text::trim_end(seg);
                text::lemma_trim_end_prefix(seg);
                assert forall|k: int| 0 < k < te.len() && #[trigger] te[k] == '\n' implies te[k - 1]
                    == '\n' || !text::is_ws(te[k - 1]) by {
                    assert(te[k] == seg[k] && seg[k] == s[i + k]);
                }
            },
        }
    }
}

/// Every line of a document's Markdown ends without white space, and the
/// Markdown neither starts nor ends with white space.
pub proof fn lemma_markdown_lines_trimmed(html: Seq<char>)
    ensures
        lines_trimmed(markdown_of(html)),
        markdown_of(html).len() > 0 ==> !text::is_ws(markdown_of(html)[0]) && !text::is_ws(
            markdown_of(html).last(),
        ),
{
    let t = trim_lines_from(collapse_from(fix_links_from(convert_from(body_of(html), 0, Seq::empty()), 0), 0, 0, false), 0);
    lemma_trim_lines_from_trimmed(collapse_from(fix_links_from(convert_from(body_of(html), 0, Seq::empty()), 0), 0, 0, false), 0);
    lemma_trim_start_suffix(t);
    let ts = text::trim_start(t);
    lemma_lines_trimmed_sub(t, trim_start_of(t), t.len() as int);
    text::lemma_trim_end_prefix(ts);
    lemma_lines_trimmed_sub(ts, 0, text::trim_end(ts).len() as int);
    lemma_markdown_trimmed(html);
}

/// `s` holds no `<`.
pub open spec fn no_lt(s: Seq<char>) -> bool {
    forall|k: int| 0 <= k < s.len() ==> s[k] != '<'
}

/// `s` holds no `&`.
pub open spec fn no_amp(s: Seq<char>) -> bool {
    forall|k: int| 0 <= k < s.len() ==> s[k] != '&'
}

/// `s` holds no `href`, in any letter case.
pub open spec fn no_href(s: Seq<char>) -> bool {
    forall|k: int| !text::fold_matches_at(s, k, "href"@)
}

proof fn lemma_no_lt_concat(a: Seq<char>, b: Seq<char>)
    requires
        no_lt(a),
        no_lt(b),
    ensures
        no_lt(a + b),
{
    assert forall|k: int| 0 <= k < (a + b).len() implies (a + b)[k] != '<' by {
        if k >= a.len() {
            assert((a + b)[k] == b[k - a.len()]);
        }
    }
}

proof fn lemma_no_lt_sub(a: Seq<char>, i: int, j: int)
    requires
        no_lt(a),
        0 <= i <= j <= a.len(),
    ensures
        no_lt(a.subrange(i, j)),
{
    assert forall|k: int| 0 <= k < j - i implies a.subrange(i, j)[k] != '<' by {
        assert(a.subrange(i, j)[k] == a[i + k]);
    }
}

proof fn lemma_no_lt_trim(a: Seq<char>)
    requires
        no_lt(a),
    ensures
        no_lt(text::trim(a)),
        no_lt(text::trim_end(a)),
{
    lemma_trim_start_suffix(a);
    lemma_no_lt_sub(a, trim_start_of(a), a.len() as int);
    let b = text::trim_start(a);
    text::lemma_trim_end_prefix(b);
    lemma_no_lt_sub(b, 0, text::trim_end(b).len() as int);
    text::lemma_trim_end_prefix(a);
    lemma_no_lt_sub(a, 0, text::trim_end(a).len() as int);
}

proof fn lemma_fold_find_matches(s: Seq<char>, p: Seq<char>, i: int)
    ensures
        text::fold_find_from(s, p, i) matches Some(k) ==> text::fold_matches_at(s, k, p),
    decreases s.len() + 1 - i,
{
    if !(i < 0 || i + p.len() > s.len()) && !text::fold_matches_at(s, i, p) {
        lemma_fold_find_matches(s, p, i + 1);
    }
}

/// A tag of a text with no `href` carries no link target.
proof fn lemma_tag_has_no_href(s: Seq<char>, i: int)
    requires
        no_href(s),
        0 <= i < s.len(),
    ensures
        attr_value(tag_text(s, i), "href"@) is None,
{
    lemma_index_of_bounds(s, '>', i + 1);
    let t = tag_text(s, i);
    let needle = "href"@ + "=\""@;
    lemma_fold_find_matches(t, needle, 0);
    if let Some(pos) = text::fold_find_from(t, needle, 0) {
        assert("href"@.len() == 4) by {
            reveal_strlit("href");
        }
        let a = i + 1;
        assert(t == s.subrange(a, a + t.len()));
        assert(text::fold_matches_at(s, a + pos, "href"@)) by {
            assert forall|k: int| 0 <= k < 4 implies text::fold_char(
                #[trigger] s.subrange(a + pos, a + pos + 4)[k],
            ) == "href"@[k] by {
                assert(s.subrange(a + pos, a + pos + 4)[k] == t.subrange(pos, pos + needle.len())[k]);
                assert(needle[k] == "href"@[k]);
            }
        }
        assert(false);
    }
}

proof fn lemma_literals_no_lt()
    ensures
        no_lt("\n\n"@),
        no_lt("**"@),
        no_lt("- "@),
        no_lt("> "@),
        no_lt("---\n\n"@),
        forall|l: int| no_lt(#[trigger] heading_marker(l)),
{
    reveal_strlit("\n\n");
    reveal_strlit("**");
    reveal_strlit("- ");
    reveal_strlit("> ");
    reveal_strlit("---\n\n");
    reveal_strlit("# ");
    reveal_strlit("## ");
    reveal_strlit("### ");
    reveal_strlit("#### ");
    reveal_strlit("##### ");
    reveal_strlit("###### ");
}

proof fn lemma_apply_tag_no_lt(tag: Seq<char>, md: Seq<char>)
    requires
        no_lt(md),
        attr_value(tag, "href"@) is None,
    ensures
        no_lt(apply_tag(tag, md)),
{
    lemma_literals_no_lt();
    let e = ensure_nl(md);
    assert(no_lt(e)) by {
        lemma_no_lt_concat(md, seq!['\n']);
    }
    lemma_no_lt_concat(md, "\n\n"@);
    lemma_no_lt_concat(md, "**"@);
    lemma_no_lt_concat(md, seq!['\n']);
    lemma_no_lt_concat(md, seq!['*']);
    lemma_no_lt_concat(md, seq![']']);
    lemma_no_lt_concat(e, "- "@);
    lemma_no_lt_concat(e, "> "@);
    lemma_no_lt_concat(e, "---\n\n"@);
    let w = tag_word(tag);
    let name = if w.len() > 0 && w[0] == '/' {
        w.drop_first()
    } else {
        w
    };
    lemma_no_lt_concat(e, heading_marker(heading_level(name)));
    assert(md.push('\n') =~= md + seq!['\n']);
    assert(md.push('*') =~= md + seq!['*']);
    assert(md.push(']') =~= md + seq![']']);
}

proof fn lemma_convert_no_lt(s: Seq<char>, i: int, md: Seq<char>)
    requires
        no_lt(md),
        no_amp(s),
        no_href(s),
        0 <= i,
    ensures
        no_lt(convert_from(s, i, md)),
    decreases s.len() - i,
{
    if i < s.len() {
        if s[i] == '<' {
            lemma_index_of_bounds(s, '>', i + 1);
            lemma_tag_has_no_href(s, i);
            lemma_apply_tag_no_lt(tag_text(s, i), md);
            lemma_convert_no_lt(s, tag_end(s, i), apply_tag(tag_text(s, i), md));
        } else {
            assert(s[i] != '&');
            lemma_no_lt_concat(md, seq![s[i]]);
            assert(md.push(s[i]) =~= md + seq![s[i]]);
            lemma_convert_no_lt(s, i + 1, md.push(s[i]));
        }
    }
}

proof fn lemma_fix_links_no_lt(t: Seq<char>, i: int)
    requires
        no_lt(t),
    ensures
        no_lt(fix_links_from(t, i)),
    decreases t.len() - i,
{
    if 0 <= i < t.len() {
        lemma_link_at_advances(t, i);
        match link_at(t, i) {
            Some((x, href, next)) => {
                lemma_fix_links_no_lt(t, next);
                lemma_index_of_bounds(t, '\u{0}', i + 2);
                let e = text::index_of_from(t, '\u{0}', i + 2)->0;
                lemma_index_of_bounds(t, ']', e + 1);
                let c = text::index_of_from(t, ']', e + 1)->0;
                lemma_no_lt_sub(t, e + 1, c);
                lemma_no_lt_sub(t, i + 2, e);
                let data = t.subrange(i + 2, e);
                assert(text::starts_with(data, "HREF:"@));
                assert(data.len() >= 5) by {
                    reveal_strlit("HREF:");
                }
                lemma_no_lt_sub(data, 5, data.len() as int);
                assert(data.skip(5) == data.subrange(5, data.len() as int));
                lemma_no_lt_trim(x);
                reveal_strlit("[");
                reveal_strlit("](");
                reveal_strlit(")");
                let l1 = "["@ + text::trim(x);
                lemma_no_lt_concat("["@, text::trim(x));
                lemma_no_lt_concat(l1, "]("@);
                lemma_no_lt_concat(l1 + "]("@, href);
                lemma_no_lt_concat(l1 + "]("@ + href, ")"@);
                lemma_no_lt_concat(l1 + "]("@ + href + ")"@, fix_links_from(t, next));
            },
            None => {
                lemma_fix_links_no_lt(t, i + 1);
                lemma_no_lt_concat(seq![t[i]], fix_links_from(t, i + 1));
            },
        }
    }
}

proof fn lemma_collapse_no_lt(t: Seq<char>, i: int, nl: int, sp: bool)
    requires
        no_lt(t),
    ensures
        no_lt(collapse_from(t, i, nl, sp)),
    decreases t.len() - i,
{
    if 0 <= i < t.len() {
        if t[i] == '\n' {
            lemma_collapse_no_lt(t, i + 1, nl + 1, false);
            lemma_no_lt_concat(seq!['\n'], collapse_from(t, i + 1, nl + 1, false));
            lemma_no_lt_concat(Seq::empty(), collapse_from(t, i + 1, nl + 1, false));
        } else if text::is_ws(t[i]) {
            lemma_collapse_no_lt(t, i + 1, 0, true);
            lemma_no_lt_concat(seq![' '], collapse_from(t, i + 1, 0, true));
            lemma_no_lt_concat(Seq::empty(), collapse_from(t, i + 1, 0, true));
        } else {
            lemma_collapse_no_lt(t, i + 1, 0, false);
            lemma_no_lt_concat(seq![t[i]], collapse_from(t, i + 1, 0, false));
        }
    }
}

proof fn lemma_trim_lines_no_lt(t: Seq<char>, i: int)
    requires
        no_lt(t),
        0 <= i,
    ensures
        no_lt(trim_lines_from(t, i)),
    decreases t.len() + 1 - i,
{
    if i <= t.len() {
        lemma_index_of_bounds(t, '\n', i);
        match text::index_of_from(t, '\n', i) {
            Some(j) => {
                lemma_no_lt_sub(t, i, j);
                lemma_no_lt_trim(t.subrange(i, j));
                lemma_trim_lines_no_lt(t, j + 1);
                reveal_strlit("\n");
                lemma_no_lt_concat(text::trim_end(t.subrange(i, j)), "\n"@);
                lemma_no_lt_concat(text::trim_end(t.subrange(i, j)) + "\n"@, trim_lines_from(t, j + 1));
            },
            None => {
                lemma_no_lt_sub(t, i, t.len() as int);
                lemma_no_lt_trim(t.subrange(i, t.len() as int));
            },
        }
    }
}

/// The Markdown of a document whose text holds no `&` and no `href` (in
/// any letter case) holds no `<`: every tag is taken out.
pub proof fn lemma_markdown_has_no_tags(html: Seq<char>)
    requires
        body_bounds_ok(html),
        no_amp(html),
        no_href(html),
    ensures
        no_lt(markdown_of(html)),
{
    let a = body_start(html);
    let b = body_end(html);
    match text::fold_find_from(html, "<body"@, 0) {
        Some(pos) => {
            lemma_index_of_bounds(html, '>', pos);
        },
        None => {},
    }
    lemma_rfind_bounds(html, "</body>"@, html.len() as int);
    assert(0 <= a <= b <= html.len());
    let body = body_of(html);
    assert(no_amp(body)) by {
        assert forall|k: int| 0 <= k < body.len() implies body[k] != '&' by {
            assert(body[k] == html[a + k]);
        }
    }
    assert(no_href(body)) by {
        assert forall|k: int| !text::fold_matches_at(body, k, "href"@) by {
            if text::fold_matches_at(body, k, "href"@) {
                assert(text::fold_matches_at(html, a + k, "href"@)) by {
                    assert forall|m: int| 0 <= m < "href"@.len() implies text::fold_char(
                        #[trigger] html.subrange(a + k, a + k + "href"@.len())[m],
                    ) == "href"@[m] by {
                        assert(html.subrange(a + k, a + k + "href"@.len())[m] == body.subrange(
                            k,
                            k + "href"@.len(),
                        )[m]);
                    }
                }
            }
        }
    }
    lemma_convert_no_lt(body, 0, Seq::empty());
    let c = convert_from(body, 0, Seq::empty());
    lemma_fix_links_no_lt(c, 0);
    lemma_collapse_no_lt(fix_links_from(c, 0), 0, 0, false);
    lemma_trim_lines_no_lt(collapse_from(fix_links_from(c, 0), 0, 0, false), 0);
    lemma_no_lt_trim(trim_lines_from(collapse_from(fix_links_from(c, 0), 0, 0, false), 0));
}

/// `n` `#` characters.
pub open spec fn hashes(n: nat) -> Seq<char> {
    Seq::new(n, |_i: int| '#')
}

/// An opening `<hN>` tag, `N` from 1 to 6 in either letter case, starts a
/// heading of level `N`: it begins a new line and writes `N` `#`
/// characters and one space.
pub proof fn lemma_heading_tag_marker(tag: Seq<char>, md: Seq<char>, n: int)
    requires
        1 <= n <= 6,
        text::fold_eq(tag_word(tag), seq!['h', (48 + n) as char]),
    ensures
        apply_tag(tag, md) == ensure_nl(md) + hashes(n as nat) + seq![' '],
{
    let w = tag_word(tag);
    assert(text::fold_char(w[0]) == 'h');
    assert(w[0] != '/');
    reveal_strlit("h1");
    reveal_strlit("h2");
    reveal_strlit("h3");
    reveal_strlit("h4");
    reveal_strlit("h5");
    reveal_strlit("h6");
    reveal_strlit("# ");
    reveal_strlit("## ");
    reveal_strlit("### ");
    reveal_strlit("#### ");
    reveal_strlit("##### ");
    reveal_strlit("###### ");
    let d = (48 + n) as char;
    assert(text::fold_char(w[1]) == d);
    if n == 1 {
        assert(text::fold_eq(w, "h1"@));
    } else if n == 2 {
        assert(text::fold_eq(w, "h2"@));
    } else if n == 3 {
        assert(text::fold_eq(w, "h3"@));
    } else if n == 4 {
        assert(text::fold_eq(w, "h4"@));
    } else if n == 5 {
        assert(text::fold_eq(w, "h5"@));
    } else {
        assert(text::fold_eq(w, "h6"@));
    }
    assert(heading_level(w) == n);
    assert(heading_marker(n) =~= hashes(n as nat) + seq![' ']);
}

/// Convert an HTML/XHTML string to Markdown.
pub fn html_to_markdown(html: &str) -> (res: String)
    requires
        body_bounds_ok(html@),
    ensures
        res@ == markdown_of(html@),
{
    let h = chars_of(html);
    let body = extract_body(h.as_slice());
    let md = convert(body.as_slice());
    let out = normalize_whitespace(md.as_slice());
    string_of(out.as_slice())
}

/// The raw converted text of a document body.
fn convert(body: &[char]) -> (res: Vec<char>)
    ensures
        res@ == convert_from(body@, 0, Seq::empty()),
{
    let n = body.len();
    let mut md: Vec<char> = Vec::new();
    let mut i: usize = 0;
    while i < n
        invariant
            i <= n,
            n == body@.len(),
            convert_from(body@, 0, Seq::empty()) == convert_from(body@, i as int, md@),
        decreases n - i,
    {
        let ch = body[i];
        if ch == '<' {
            let (tag, next) = consume_tag(body, i);
            proof {
                lemma_index_of_bounds(body@, '>', i + 1);
            }
            handle_tag(tag.as_slice(), &mut md);
            i = next;
        } else if ch == '&' {
            let (ent, next) = consume_entity(body, i);
            proof {
                lemma_entity_scan_advances(body@, i + 1, Seq::empty());
            }
            let dec = decode_entity(ent.as_slice());
            push_seq(&mut md, dec.as_slice());
            i = next;
        } else {
            md.push(ch);
            i += 1;
        }
    }
    md
}

// ---------------------------------------------------------------------------
// Normalization
// ---------------------------------------------------------------------------

proof fn lemma_trim_start_step(s: Seq<char>, lo: int, hi: int)
    requires
        0 <= lo <= hi <= s.len(),
    ensures
        lo < hi && text::is_ws(s[lo]) ==> text::trim_start(s.subrange(lo, hi)) == text::trim_start(
            s.subrange(lo + 1, hi),
        ),
        !(lo < hi && text::is_ws(s[lo])) ==> text::trim_start(s.subrange(lo, hi)) == s.subrange(
            lo,
            hi,
        ),
{
    if lo < hi {
        assert(s.subrange(lo, hi).drop_first() == s.subrange(lo + 1, hi));
    }
}

proof fn lemma_trim_end_step(s: Seq<char>, lo: int, hi: int)
    requires
        0 <= lo <= hi <= s.len(),
    ensures
        lo < hi && text::is_ws(s[hi - 1]) ==> text::trim_end(s.subrange(lo, hi)) == text::trim_end(
            s.subrange(lo, hi - 1),
        ),
        !(lo < hi && text::is_ws(s[hi - 1])) ==> text::trim_end(s.subrange(lo, hi)) == s.subrange(
            lo,
            hi,
        ),
{
    if lo < hi {
        assert(s.subrange(lo, hi).drop_last() == s.subrange(lo, hi - 1));
    }
}

/// The end of `s[lo..hi]` without its trailing white space.
fn trim_end_index(s: &[char], lo: usize, hi: usize) -> (res: usize)
    requires
        lo <= hi <= s@.len(),
    ensures
        lo <= res <= hi,
        text::trim_end(s@.subrange(lo as int, hi as int)) == s@.subrange(lo as int, res as int),
{
    let mut b = hi;
    while b > lo && char_is_ws(s[b - 1])
        invariant
            lo <= b <= hi <= s@.len(),
            text::trim_end(s@.subrange(lo as int, hi as int)) == text::trim_end(
                s@.subrange(lo as int, b as int),
            ),
        decreases b,
    {
        proof {
            lemma_trim_end_step(s@, lo as int, b as int);
        }
        b -= 1;
    }
    proof {
        lemma_trim_end_step(s@, lo as int, b as int);
    }
    b
}

/// The bounds of `s[lo..hi]` without leading and trailing white space.
fn trim_range(s: &[char], lo: usize, hi: usize) -> (res: (usize, usize))
    requires
        lo <= hi <= s@.len(),
    ensures
        lo <= res.0 <= res.1 <= hi,
        text::trim(s@.subrange(lo as int, hi as int)) == s@.subrange(res.0 as int, res.1 as int),
{
    let mut a = lo;
    while a < hi && char_is_ws(s[a])
        invariant
            lo <= a <= hi <= s@.len(),
            text::trim_start(s@.subrange(lo as int, hi as int)) == text::trim_start(
                s@.subrange(a as int, hi as int),
            ),
        decreases hi - a,
    {
        proof {
            lemma_trim_start_step(s@, a as int, hi as int);
        }
        a += 1;
    }
    proof {
        lemma_trim_start_step(s@, a as int, hi as int);
    }
    let b = trim_end_index(s, a, hi);
    (a, b)
}

/// `s` without leading and trailing white space.
pub fn trim_str(s: &str) -> (res: String)
    ensures
        res@ == text::trim(s@),
{
    let cs = chars_of(s);
    let (a, b) = trim_range(cs.as_slice(), 0, cs.len());
    let mut out = String::new();
    let mut k = a;
    while k < b
        invariant
            a <= k <= b <= cs@.len(),
            out@ == cs@.subrange(a as int, k as int),
        decreases b - k,
    {
        push_char(&mut out, cs[k]);
        proof {
            assert(cs@.subrange(a as int, k + 1) =~= cs@.subrange(a as int, k as int).push(cs@[k as int]));
        }
        k += 1;
    }
    proof {
        assert(cs@.subrange(0, cs@.len() as int) =~= s@);
    }
    out
}

/// The link marker at `i`, as the bounds of its text and url and the index
/// after it.
fn link_at_exec(s: &[char], i: usize) -> (res: Option<(usize, usize, usize, usize, usize)>)
    requires
        i < s@.len(),
    ensures
        res matches Some((ts, te, hs, he, next)) ==> ts <= te <= s@.len() && hs <= he <= s@.len()
            && link_at(s@, i as int) == Some(
            (s@.subrange(ts as int, te as int), s@.subrange(hs as int, he as int), next as int),
        ),
        res is None ==> link_at(s@, i as int) is None,
{
    let n = s.len();
    if !(i + 1 < n && s[i] == '[' && s[i + 1] == '\u{0}') {
        return None;
    }
    proof {
        lemma_index_of_bounds(s@, '\u{0}', i + 2);
    }
    let e = match index_of_from_exec(s, '\u{0}', i + 2) {
        Some(e) => e,
        None => {
            return None;
        },
    };
    let pre = chars_of("HREF:");
    let ghost data = s@.subrange(i + 2, e as int);
    let ok = if pre.len() <= e - (i + 2) {
        let r = matches_at_exec(s, i + 2, pre.as_slice());
        proof {
            assert(data.subrange(0, pre@.len() as int) == s@.subrange(
                i + 2,
                i + 2 + pre@.len(),
            ));
        }
        r
    } else {
        false
    };
    assert(ok == text::starts_with(data, "HREF:"@));
    if !ok {
        return None;
    }
    proof {
        lemma_index_of_bounds(s@, ']', e + 1);
        reveal_strlit("HREF:");
        assert(data.skip(5) == s@.subrange(i + 2 + 5, e as int));
    }
    match index_of_from_exec(s, ']', e + 1) {
        Some(c) => Some((e + 1, c, i + 2 + 5, e, c + 1)),
        None => None,
    }
}

/// Fix link markers from streaming parse: [\0HREF:url\0text] -> [text](url)
fn fix_links(t: &[char]) -> (res: Vec<char>)
    ensures
        res@ == fix_links_from(t@, 0),
{
    let n = t.len();
    let mut out: Vec<char> = Vec::new();
    let mut i: usize = 0;
    while i < n
        invariant
            i <= n,
            n == t@.len(),
            fix_links_from(t@, 0) == out@ + fix_links_from(t@, i as int),
        decreases n - i,
    {
        proof {
            lemma_link_at_advances(t@, i as int);
        }
        match link_at_exec(t, i) {
            Some((ts, te, hs, he, next)) => {
                let (a, b) = trim_range(t, ts, te);
                let ghost o = out@;
                out.push('[');
                let mut k = a;
                while k < b
                    invariant
                        a <= k <= b <= t@.len(),
                        out@ == o.push('[') + t@.subrange(a as int, k as int),
                    decreases b - k,
                {
                    out.push(t[k]);
                    k += 1;
                }
                push_lit(&mut out, "](");
                let ghost o2 = out@;
                let mut k = hs;
                while k < he
                    invariant
                        hs <= k <= he <= t@.len(),
                        out@ == o2 + t@.subrange(hs as int, k as int),
                    decreases he - k,
                {
                    out.push(t[k]);
                    k += 1;
                }
                out.push(')');
                proof {
                    assert(o.push('[') == o + "["@) by {
                        reveal_strlit("[");
                    }
                    assert(out@ == o + "["@ + t@.subrange(a as int, b as int) + "]("@
                        + t@.subrange(hs as int, he as int) + ")"@) by {
                        reveal_strlit(")");
                    }
                }
                i = next;
            },
            None => {
                out.push(t[i]);
                i += 1;
            },
        }
    }
    out
}

proof fn lemma_collapse_saturates(s: Seq<char>, i: int, nl: int, sp: bool)
    requires
        nl >= 2,
    ensures
        collapse_from(s, i, nl, sp) == collapse_from(s, i, 2, sp),
    decreases s.len() - i,
{
    if 0 <= i < s.len() && s[i] == '\n' {
        lemma_collapse_saturates(s, i + 1, nl + 1, false);
        lemma_collapse_saturates(s, i + 1, 3, false);
    }
}

/// Collapse runs of white space.
fn collapse(t: &[char]) -> (res: Vec<char>)
    ensures
        res@ == collapse_from(t@, 0, 0, false),
{
    let n = t.len();
    let mut out: Vec<char> = Vec::new();
    let mut nl: usize = 0;
    let mut sp = false;
    let mut i: usize = 0;
    while i < n
        invariant
            i <= n,
            n == t@.len(),
            nl <= 2,
            collapse_from(t@, 0, 0, false) == out@ + collapse_from(t@, i as int, nl as int, sp),
        decreases n - i,
    {
        let ch = t[i];
        let ghost o = out@;
        if ch == '\n' {
            if nl + 1 <= 2 {
                out.push('\n');
            }
            proof {
                if nl + 1 > 2 {
                    lemma_collapse_saturates(t@, i + 1, nl + 1, false);
                }
            }
            if nl < 2 {
                nl += 1;
            }
            sp = false;
        } else if char_is_ws(ch) {
            if !sp {
                out.push(' ');
            }
            nl = 0;
            sp = true;
        } else {
            out.push(ch);
            nl = 0;
            sp = false;
        }
        i += 1;
        proof {
            if ch == '\n' && nl as int + 0 <= 2 {
            }
        }
    }
    out
}

/// The lines of `t`, each trimmed at its end, joined by newlines.
fn trim_lines(t: &[char]) -> (res: Vec<char>)
    ensures
        res@ == trim_lines_from(t@, 0),
{
    let n = t.len();
    let mut out: Vec<char> = Vec::new();
    let mut i: usize = 0;
    loop
        invariant
            i <= n,
            n == t@.len(),
            trim_lines_from(t@, 0) == out@ + trim_lines_from(t@, i as int),
        decreases n + 1 - i,
    {
        proof {
            lemma_index_of_bounds(t@, '\n', i as int);
        }
        match index_of_from_exec(t, '\n', i) {
            Some(j) => {
                let b = trim_end_index(t, i, j);
                let ghost o = out@;
                let mut k = i;
                while k < b
                    invariant
                        i <= k <= b <= t@.len(),
                        out@ == o + t@.subrange(i as int, k as int),
                    decreases b - k,
                {
                    out.push(t[k]);
                    k += 1;
                }
                out.push('\n');
                proof {
                    assert(seq!['\n'] == "\n"@) by {
                        reveal_strlit("\n");
                    }
                }
                i = j + 1;
            },
            None => {
                let b = trim_end_index(t, i, n);
                let ghost o = out@;
                let mut k = i;
                while k < b
                    invariant
                        i <= k <= b <= t@.len(),
                        out@ == o + t@.subrange(i as int, k as int),
                    decreases b - k,
                {
                    out.push(t[k]);
                    k += 1;
                }
                return out;
            },
        }
    }
}

/// Normalize whitespace: collapse runs, clean up excessive newlines, fix links.
fn normalize_whitespace(text: &[char]) -> (res: Vec<char>)
    ensures
        res@ == normalize(text@),
{
    let fixed = fix_links(text);
    let collapsed = collapse(fixed.as_slice());
    let lines = trim_lines(collapsed.as_slice());
    let (a, b) = trim_range(lines.as_slice(), 0, lines.len());
    let mut out: Vec<char> = Vec::new();
    let mut k = a;
    while k < b
        invariant
            a <= k <= b <= lines@.len(),
            out@ == lines@.subrange(a as int, k as int),
        decreases b - k,
    {
        out.push(lines[k]);
        k += 1;
    }
    proof {
        assert(lines@.subrange(0, lines@.len() as int) == lines@);
    }
    out
}

// ---------------------------------------------------------------------------
// A whole book
// ---------------------------------------------------------------------------

/// The last of the first `n` items that is a document with id `id`.
pub open spec fn document_with_id(items: Seq<Arc<EpubItem>>, id: Seq<char>, n: int) -> Option<int>
    decreases n,
{
    if n <= 0 || n > items.len() {
        None
    } else if items[n - 1].item_type == ItemType::Document && items[n - 1].id@ == id {
        Some(n - 1)
    } else {
        document_with_id(items, id, n - 1)
    }
}

/// The decoded text of the document that spine entry `k` refers to.
pub open spec fn chapter_text(book: EpubBook, k: int) -> Option<Seq<char>> {
    match document_with_id(book.items@, book.spine@[k].idref@, book.items@.len() as int) {
        Some(i) => Some(utf8_lossy(book.items@[i].content_view())),
        None => None,
    }
}

/// Every chapter's body bounds are in order, so that each converts.
pub open spec fn chapters_convert(book: EpubBook) -> bool {
    forall|k: int|
        0 <= k < book.spine@.len() ==> (#[trigger] chapter_text(book, k) matches Some(t) ==> body_bounds_ok(t))
}

/// The Markdown of the chapters of the first `n` spine entries, and whether
/// none has been written yet: non-empty chapters, separated by rules.
pub open spec fn chapters_markdown(book: EpubBook, n: int) -> (Seq<char>, bool)
    decreases n,
{
    if n <= 0 || n > book.spine@.len() {
        (Seq::empty(), true)
    } else {
        let (acc, first) = chapters_markdown(book, n - 1);
        match chapter_text(book, n - 1) {
            Some(t) => {
                let c = markdown_of(t);
                if c.len() > 0 {
                    (acc + (if first { Seq::empty() } else { "\n\n---\n\n"@ }) + c, false)
                } else {
                    (acc, first)
                }
            },
            None => (acc, first),
        }
    }
}

/// The Markdown of a book: a header with its title and author, then its
/// chapters in spine order.
pub open spec fn book_markdown(book: EpubBook) -> Seq<char> {
    let m = book.metadata@;
    "# "@ + (match crate::metadata::first_value(m, "DC"@, "title"@) {
        Some(t) => t,
        None => "Untitled"@,
    }) + "\n\n**"@ + (match crate::metadata::first_value(m, "DC"@, "creator"@) {
        Some(a) => a,
        None => "Unknown"@,
    }) + "**\n\n---\n\n"@ + chapters_markdown(book, book.spine@.len() as int).0
}

/// The index of the last document item with id `id`.
fn document_index(items: &Vec<Arc<EpubItem>>, id: &str) -> (res: Option<usize>)
    ensures
        res matches Some(i) ==> document_with_id(items@, id@, items@.len() as int) == Some(i as int) && i < items@.len(),
        res is None ==> document_with_id(items@, id@, items@.len() as int) is None,
{
    let mut n = items.len();
    while n > 0
        invariant
            n <= items@.len(),
            document_with_id(items@, id@, items@.len() as int) == document_with_id(items@, id@, n as int),
        decreases n,
    {
        if items[n - 1].item_type == ItemType::Document && text::str_eq(items[n - 1].id.as_str(), id) {
            return Some(n - 1);
        }
        n -= 1;
    }
    None
}

/// The decoded text of the chapter of spine entry `k`.
fn chapter_text_exec(book: &EpubBook, k: usize) -> (res: Option<String>)
    requires
        k < book.spine@.len(),
    ensures
        res matches Some(t) ==> chapter_text(*book, k as int) == Some(t@),
        res is None ==> chapter_text(*book, k as int) is None,
{
    match document_index(&book.items, book.spine[k].idref.as_str()) {
        Some(i) => {
            let content = book.items[i].get_content();
            Some(text_of_bytes(content.as_slice()))
        },
        None => None,
    }
}

/// Convert an entire EpubBook to a single Markdown string.
/// Follows spine order, skipping non-document items.
pub fn book_to_markdown(book: &EpubBook) -> (res: String)
    requires
        chapters_convert(*book),
    ensures
        res@ == book_markdown(*book),
{
    let title = match book.get_metadata_value("DC", "title") {
        Some(t) => t,
        None => "Untitled",
    };
    let author = match book.get_metadata_value("DC", "creator") {
        Some(a) => a,
        None => "Unknown",
    };
    let mut md = "# ".to_owned();
    push_str(&mut md, title);
    push_str(&mut md, "\n\n**");
    push_str(&mut md, author);
    push_str(&mut md, "**\n\n---\n\n");
    let ghost head = md@;
    let mut body = String::new();
    let mut first = true;
    let n = book.spine.len();
    let mut k: usize = 0;
    while k < n
        invariant
            k <= n,
            n == book.spine@.len(),
            chapters_convert(*book),
            (body@, first) == chapters_markdown(*book, k as int),
        decreases n - k,
    {
        if let Some(html) = chapter_text_exec(book, k) {
            assert(chapter_text(*book, k as int) matches Some(t) ==> body_bounds_ok(t));
            let chapter_md = html_to_markdown(html.as_str());
            if chapter_md.unicode_len() > 0 {
                if !first {
                    push_str(&mut body, "\n\n---\n\n");
                }
                push_str(&mut body, chapter_md.as_str());
                first = false;
            }
        }
        k += 1;
    }
    push_str(&mut md, body.as_str());
    md
}

/// Whether every chapter of a book converts: its decoded text has its
/// body bounds in order.
pub fn chapters_convert_exec(book: &EpubBook) -> (res: bool)
    ensures
        res == chapters_convert(*book),
{
    let n = book.spine.len();
    let mut k: usize = 0;
    while k < n
        invariant
            k <= n,
            n == book.spine@.len(),
            forall|j: int| 0 <= j < k ==> (#[trigger] chapter_text(*book, j) matches Some(t) ==> body_bounds_ok(t)),
        decreases n - k,
    {
        if let Some(html) = chapter_text_exec(book, k) {
            if !body_bounds_ok_exec(html.as_str()) {
                return false;
            }
        }
        k += 1;
    }
    true
}

/// The Markdown of a book, when each of its chapters converts; `None` when
/// one does not.
pub fn try_book_to_markdown(book: &EpubBook) -> (res: Option<String>)
    ensures
        chapters_convert(*book) ==> (res matches Some(s) && s@ == book_markdown(*book)),
        !chapters_convert(*book) ==> res is None,
{
    if chapters_convert_exec(book) {
        Some(book_to_markdown(book))
    } else {
        None
    }
}

} // verus!
