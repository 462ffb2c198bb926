//! EPUB writing: the package, NCX and Nav documents, and the archive.
use vstd::prelude::*;
use crate::ncx::TocEntry;
use crate::item_type::ItemType;
use crate::model::{EpubBook, EpubItem};
use crate::spine::SpineItem;
use std::sync::Arc;
use crate::text;
use crate::text::{chars_of, push_char, push_str};
use crate::archive::{
    ArchiveWriter, MAX_WRITTEN_ENTRY, ZipEntry, distinct_names, entries_fit, name_fits, name_unused,
    reads_back, zip_archive_of, zip_finish, zip_start_deflated, zip_start_stored, zip_write_all,
    zip_writer_new, zip_written,
};
use crate::errors::EpubError;
use crate::metadata::first_value;
use crate::reader::{resolve_relative, resolve_relative_spec};
use crate::timestamp::{clock_timestamp, current_utc_timestamp};
use vstd::string::StrSliceExecFns;
use vstd::utf8::encode_utf8;

verus! {

// ---------------------------------------------------------------------------
// Escaping and names
// ---------------------------------------------------------------------------

/// The XML text for one character.
pub open spec fn escape_char(c: char) -> Seq<char> {
    if c == '&' {
        "&amp;"@
    } else if c == '<' {
        "&lt;"@
    } else if c == '>' {
        "&gt;"@
    } else if c == '"' {
        "&quot;"@
    } else if c == '\'' {
        "&apos;"@
    } else {
        seq![c]
    }
}

/// `s` with the XML special characters replaced by entities.
pub open spec fn xml_escape_spec(s: Seq<char>) -> Seq<char>
    decreases s.len(),
{
    if s.len() == 0 {
        Seq::empty()
    } else {
        xml_escape_spec(s.drop_last()) + escape_char(s.last())
    }
}

/// Escape XML special characters directly into a buffer.
pub fn xml_escape_into(buf: &mut String, s: &str)
    ensures
        final(buf)@ == old(buf)@ + xml_escape_spec(s@),
{
    let ghost b0 = buf@;
    let cs = chars_of(s);
    let n = cs.len();
    let mut i: usize = 0;
    while i < n
        invariant
            i <= n,
            n == cs@.len(),
            cs@ == s@,
            buf@ == b0 + xml_escape_spec(cs@.take(i as int)),
        decreases n - i,
    {
        let ch = cs[i];
        if ch == '&' {
            push_str(buf, "&amp;");
        } else if ch == '<' {
            push_str(buf, "&lt;");
        } else if ch == '>' {
            push_str(buf, "&gt;");
        } else if ch == '"' {
            push_str(buf, "&quot;");
        } else if ch == '\'' {
            push_str(buf, "&apos;");
        } else {
            push_char(buf, ch);
        }
        proof {
            assert(cs@.take(i + 1).drop_last() == cs@.take(i as int));
        }
        i += 1;
    }
    proof {
        assert(cs@.take(n as int) == cs@);
    }
}

/// Allocating form of `xml_escape_into`.
pub fn xml_escape(s: &str) -> (res: String)
    ensures
        res@ == xml_escape_spec(s@),
{
    let mut buf = String::new();
    xml_escape_into(&mut buf, s);
    buf
}

/// Escaped text holds none of the characters `<`, `>`, `"` and `'`.
pub proof fn lemma_escape_has_no_markup(s: Seq<char>)
    ensures
        forall|i: int|
            0 <= i < xml_escape_spec(s).len() ==> {
                let c = #[trigger] xml_escape_spec(s)[i];
                c != '<' && c != '>' && c != '"' && c != '\''
            },
    decreases s.len(),
{
    reveal_strlit("&amp;");
    reveal_strlit("&lt;");
    reveal_strlit("&gt;");
    reveal_strlit("&quot;");
    reveal_strlit("&apos;");
    if s.len() > 0 {
        lemma_escape_has_no_markup(s.drop_last());
        let a = xml_escape_spec(s.drop_last());
        let b = escape_char(s.last());
        assert forall|i: int| 0 <= i < (a + b).len() implies {
            let c = #[trigger] (a + b)[i];
            c != '<' && c != '>' && c != '"' && c != '\''
        } by {
            if i < a.len() {
                assert((a + b)[i] == a[i]);
            } else {
                assert((a + b)[i] == b[i - a.len()]);
            }
        }
    }
}

/// Whether the standard library's `char::is_alphanumeric` holds of `c`.
pub uninterp spec fn alphanumeric(c: char) -> bool;

/// Alphanumeric characters: among ASCII the letters and digits, beyond it
/// what `char::is_alphanumeric` says.
pub open spec fn alnum(c: char) -> bool {
    if (c as u32) < 128 {
        ('a' <= c && c <= 'z') || ('A' <= c && c <= 'Z') || ('0' <= c && c <= '9')
    } else {
        alphanumeric(c)
    }
}

/// `char::is_alphanumeric`. Claimed: the result is the named predicate of
/// `c`, which for ASCII characters holds exactly of letters and digits.
#[verifier::external_body]
fn is_alphanumeric(c: char) -> (res: bool)
    ensures
        res == (if (c as u32) < 128 {
            ('a' <= c && c <= 'z') || ('A' <= c && c <= 'Z') || ('0' <= c && c <= '9')
        } else {
            alphanumeric(c)
        }),
{
    c.is_alphanumeric()
}

/// A character allowed in a safe XML name.
pub open spec fn name_char(c: char) -> bool {
    alnum(c) || c == '-' || c == '_' || c == '.' || c == ':'
}

/// A non-empty name made only of alphanumeric characters, hyphens,
/// underscores, dots and colons.
pub open spec fn safe_name(s: Seq<char>) -> bool {
    s.len() > 0 && forall|i: int| 0 <= i < s.len() ==> #[trigger] name_char(s[i])
}

/// Check if a string is a safe XML element/attribute name.
pub fn is_safe_xml_name(s: &str) -> (res: bool)
    ensures
        res == safe_name(s@),
{
    let cs = chars_of(s);
    let n = cs.len();
    if n == 0 {
        return false;
    }
    let mut i: usize = 0;
    while i < n
        invariant
            i <= n,
            n == cs@.len(),
            cs@ == s@,
            forall|j: int| 0 <= j < i ==> #[trigger] name_char(cs@[j]),
        decreases n - i,
    {
        let c = cs[i];
        let ok = is_alphanumeric(c) || c == '-' || c == '_' || c == '.' || c == ':';
        if !ok {
            assert(!name_char(cs@[i as int]));
            return false;
        }
        i += 1;
    }
    true
}

/// A safe name holds none of the characters that could end a name or a
/// value in XML: ASCII white space, `<`, `>`, `"`, `'`, `/`, `=` and `&`.
pub proof fn lemma_safe_name_has_no_markup(s: Seq<char>, i: int)
    requires
        safe_name(s),
        0 <= i < s.len(),
    ensures
        s[i] != '<' && s[i] != '>' && s[i] != '"' && s[i] != '\'' && s[i] != '/' && s[i] != '='
            && s[i] != '&' && !(text::is_ws(s[i]) && (s[i] as u32) < 128),
{
    assert(name_char(s[i]));
}

// ---------------------------------------------------------------------------
// Numbers and indentation
// ---------------------------------------------------------------------------

/// The decimal digit for `d` (below 10).
pub open spec fn digit_char(d: nat) -> char {
    ((d + 48) as u32) as char
}

/// The decimal notation of `n`.
pub open spec fn decimal(n: nat) -> Seq<char>
    decreases n,
{
    if n < 10 {
        seq![digit_char(n)]
    } else {
        decimal(n / 10).push(digit_char(n % 10))
    }
}

/// Ten to the power `k`.
pub open spec fn pow10(k: nat) -> nat
    decreases k,
{
    if k == 0 {
        1
    } else {
        10 * pow10((k - 1) as nat)
    }
}

/// The decimal notation of a number below `10^k` has at most `k` digits.
proof fn lemma_decimal_len(n: nat, k: nat)
    requires
        k >= 1,
        n < pow10(k),
    ensures
        decimal(n).len() <= k,
    decreases k,
{
    if n >= 10 {
        let q = pow10((k - 1) as nat);
        if k == 1 {
            assert(pow10(0) == 1);
        } else {
            assert(n / 10 < q) by (nonlinear_arith)
                requires
                    n < 10 * q,
            ;
            lemma_decimal_len(n / 10, (k - 1) as nat);
        }
    }
}

/// A `u64` has at most twenty decimal digits.
pub proof fn lemma_decimal_len_u64(n: u64)
    ensures
        decimal(n as nat).len() <= 20,
{
    reveal_with_fuel(pow10, 21);
    assert(pow10(20) == 100000000000000000000);
    lemma_decimal_len(n as nat, 20);
}

/// The character of a decimal digit.
fn digit(d: u64) -> (res: char)
    requires
        d < 10,
    ensures
        res == digit_char(d as nat),
{
    let b: u8 = (d as u8) + 48;
    b as char
}

/// Appends the decimal notation of `n`.
pub fn push_decimal(buf: &mut String, n: u64)
    ensures
        final(buf)@ == old(buf)@ + decimal(n as nat),
    decreases n,
{
    if n < 10 {
        push_char(buf, digit(n));
    } else {
        push_decimal(buf, n / 10);
        push_char(buf, digit(n % 10));
    }
}

/// `level` levels of indentation, two spaces each.
pub open spec fn indent(level: nat) -> Seq<char>
    decreases level,
{
    if level == 0 {
        Seq::empty()
    } else {
        indent((level - 1) as nat) + "  "@
    }
}

/// Write indentation (2 spaces per level) directly into buffer.
fn write_indent(buf: &mut String, level: usize)
    ensures
        final(buf)@ == old(buf)@ + indent(level as nat),
{
    let ghost b0 = buf@;
    let mut k: usize = 0;
    while k < level
        invariant
            k <= level,
            buf@ == b0 + indent(k as nat),
        decreases level - k,
    {
        push_str(buf, "  ");
        k += 1;
    }
}

/// `level` levels of indentation as a new string.
fn indent_string(level: usize) -> (res: String)
    ensures
        res@ == indent(level as nat),
{
    let mut s = String::new();
    let mut k: usize = 0;
    while k < level
        invariant
            k <= level,
            s@ == indent(k as nat),
        decreases level - k,
    {
        push_str(&mut s, "  ");
        k += 1;
    }
    s
}

// ---------------------------------------------------------------------------
// NCX
// ---------------------------------------------------------------------------

/// The play order after `po`, wrapping around as `u32` does.
pub open spec fn next_order(po: u32) -> u32 {
    if po == u32::MAX {
        0
    } else {
        (po + 1) as u32
    }
}

/// The opening of the navPoint of an entry: its tag, label and target.
pub open spec fn ncx_point_head(e: TocEntry, po: u32, ind: nat) -> Seq<char> {
    indent(ind) + "<navPoint id=\"np"@ + decimal(po as nat) + "\" playOrder=\""@ + decimal(
        po as nat,
    ) + "\">\n"@ + indent(ind + 1) + "<navLabel><text>"@ + xml_escape_spec(e.title@)
        + "</text></navLabel>\n"@ + indent(ind + 1) + "<content src=\""@ + xml_escape_spec(e.href@)
        + "\"/>\n"@
}

/// The navPoints for one entry, written at indentation `ind` with play
/// orders counted from `po`, and the next play order. A section heading
/// without a target (no href, some children) writes only its children.
pub open spec fn ncx_point(e: TocEntry, po: u32, ind: nat) -> (Seq<char>, u32)
    decreases e, 1nat,
{
    if e.href@.len() == 0 && e.children@.len() > 0 {
        ncx_points(e.children@, po, ind)
    } else {
        let head = ncx_point_head(e, po, ind);
        let (kids, po2) = ncx_points(e.children@, next_order(po), ind + 1);
        (head + kids + indent(ind) + "</navPoint>\n"@, po2)
    }
}

/// The navPoints for a list of entries, and the next play order.
pub open spec fn ncx_points(es: Seq<TocEntry>, po: u32, ind: nat) -> (Seq<char>, u32)
    decreases es, 0nat,
{
    if es.len() == 0 {
        (Seq::empty(), po)
    } else {
        let (a, po1) = ncx_points(es.drop_last(), po, ind);
        let (b, po2) = ncx_point(es.last(), po1, ind);
        (a + b, po2)
    }
}

/// How deeply an entry nests: 1 for an entry without children.
pub open spec fn toc_depth(e: TocEntry) -> nat
    decreases e, 1nat,
{
    1 + toc_list_depth(e.children@)
}

/// How deeply the deepest of a list of entries nests.
pub open spec fn toc_list_depth(es: Seq<TocEntry>) -> nat
    decreases es, 0nat,
{
    if es.len() == 0 {
        0
    } else {
        let a = toc_list_depth(es.drop_last());
        let b = toc_depth(es.last());
        if a >= b {
            a
        } else {
            b
        }
    }
}

proof fn lemma_list_depth_bounds(es: Seq<TocEntry>, k: int)
    requires
        0 <= k < es.len(),
    ensures
        toc_depth(es[k]) <= toc_list_depth(es),
        toc_list_depth(es.take(k)) <= toc_list_depth(es),
    decreases es.len(),
{
    if k < es.len() - 1 {
        lemma_list_depth_bounds(es.drop_last(), k);
        assert(es.drop_last()[k] == es[k]);
        assert(es.drop_last().take(k) == es.take(k));
    } else {
        assert(es.take(k) == es.drop_last());
    }
}

/// How many play orders the navPoints of an entry use: one for the entry,
/// unless it is a section heading without a target, and those of its
/// children.
pub open spec fn point_count(e: TocEntry) -> nat
    decreases e, 1nat,
{
    if e.href@.len() == 0 && e.children@.len() > 0 {
        points_count(e.children@)
    } else {
        1 + points_count(e.children@)
    }
}

/// How many play orders the navPoints of a list of entries use.
pub open spec fn points_count(es: Seq<TocEntry>) -> nat
    decreases es, 0nat,
{
    if es.len() == 0 {
        0
    } else {
        points_count(es.drop_last()) + point_count(es.last())
    }
}

/// The play order `n` steps after `po`, wrapping around as `u32` does.
pub open spec fn order_after(po: u32, n: nat) -> u32 {
    ((po as nat + n) % 0x1_0000_0000) as u32
}

/// The navPoints of an entry are numbered consecutively: the next play
/// order after them is `point_count(e)` steps on.
pub proof fn lemma_point_play_orders(e: TocEntry, po: u32, ind: nat)
    ensures
        ncx_point(e, po, ind).1 == order_after(po, point_count(e)),
    decreases e, 1nat,
{
    if e.href@.len() == 0 && e.children@.len() > 0 {
        lemma_points_play_orders(e.children@, po, ind);
    } else {
        lemma_points_play_orders(e.children@, next_order(po), ind + 1);
        let c = points_count(e.children@);
        assert(next_order(po) == order_after(po, 1));
        assert(order_after(order_after(po, 1), c) == order_after(po, 1 + c)) by {
            lemma_order_after_add(po, 1, c);
        }
    }
}

/// The navPoints of a list of entries are numbered consecutively from `po`:
/// the next play order after them is `points_count(es)` steps on.
pub proof fn lemma_points_play_orders(es: Seq<TocEntry>, po: u32, ind: nat)
    ensures
        ncx_points(es, po, ind).1 == order_after(po, points_count(es)),
    decreases es, 0nat,
{
    if es.len() == 0 {
        assert(order_after(po, 0) == po);
    } else {
        lemma_points_play_orders(es.drop_last(), po, ind);
        let po1 = ncx_points(es.drop_last(), po, ind).1;
        lemma_point_play_orders(es.last(), po1, ind);
        lemma_order_after_add(po, points_count(es.drop_last()), point_count(es.last()));
    }
}

/// Stepping `a` then `b` play orders is stepping `a + b`.
proof fn lemma_order_after_add(po: u32, a: nat, b: nat)
    ensures
        order_after(order_after(po, a), b) == order_after(po, a + b),
{
    let m: int = 0x1_0000_0000;
    let x = po as int + a;
    vstd::arithmetic::div_mod::lemma_add_mod_noop(x, b as int, m);
    vstd::arithmetic::div_mod::lemma_mod_twice(b as int, m);
    vstd::arithmetic::div_mod::lemma_mod_bound(x, m);
    vstd::arithmetic::div_mod::lemma_mod_bound(x + b, m);
    assert(order_after(po, a) as int == x % m);
    vstd::arithmetic::div_mod::lemma_add_mod_noop(x % m, b as int, m);
    vstd::arithmetic::div_mod::lemma_mod_twice(x, m);
}

/// Recursively write NCX navPoint elements.
fn write_ncx_navpoint(buf: &mut String, entry: &TocEntry, play_order: &mut u32, ind: usize)
    requires
        ind + 2 * toc_depth(*entry) < usize::MAX,
    ensures
        final(buf)@ == old(buf)@ + ncx_point(*entry, *old(play_order), ind as nat).0,
        *final(play_order) == ncx_point(*entry, *old(play_order), ind as nat).1,
    decreases *entry, 1nat,
{
    if entry.href.as_str().is_empty() && entry.children.len() > 0 {
        write_ncx_children(buf, &entry.children, play_order, ind);
        return;
    }
    let po = *play_order;
    let head = ncx_head(entry, po, ind);
    push_str(buf, head.as_str());
    *play_order = play_order.wrapping_add(1);
    assert(*play_order == next_order(po));
    let ghost b1 = buf@;
    write_ncx_children(buf, &entry.children, play_order, ind + 1);
    let ghost b2 = buf@;
    let tail = indent_string(ind);
    push_str(buf, tail.as_str());
    push_str(buf, "</navPoint>\n");
    proof {
        let kids = ncx_points(entry.children@, next_order(po), (ind + 1) as nat).0;
        assert(buf@ =~= old(buf)@ + (ncx_point_head(*entry, po, ind as nat) + kids + indent(ind as nat)
            + "</navPoint>\n"@));
    }
}

/// The opening of the navPoint of an entry.
fn ncx_head(entry: &TocEntry, po: u32, ind: usize) -> (res: String)
    requires
        ind + 1 < usize::MAX,
    ensures
        res@ == ncx_point_head(*entry, po, ind as nat),
{
    let mut s = indent_string(ind);
    push_str(&mut s, "<navPoint id=\"np");
    push_decimal(&mut s, po as u64);
    push_str(&mut s, "\" playOrder=\"");
    push_decimal(&mut s, po as u64);
    push_str(&mut s, "\">\n");
    let i1 = indent_string(ind + 1);
    push_str(&mut s, i1.as_str());
    push_str(&mut s, "<navLabel><text>");
    xml_escape_into(&mut s, entry.title.as_str());
    push_str(&mut s, "</text></navLabel>\n");
    push_str(&mut s, i1.as_str());
    push_str(&mut s, "<content src=\"");
    xml_escape_into(&mut s, entry.href.as_str());
    push_str(&mut s, "\"/>\n");
    s
}

/// Write the navPoints of a list of entries.
fn write_ncx_children(buf: &mut String, es: &Vec<TocEntry>, play_order: &mut u32, ind: usize)
    requires
        ind + 2 * toc_list_depth(es@) < usize::MAX,
    ensures
        final(buf)@ == old(buf)@ + ncx_points(es@, *old(play_order), ind as nat).0,
        *final(play_order) == ncx_points(es@, *old(play_order), ind as nat).1,
    decreases es@, 0nat,
{
    let ghost b0 = buf@;
    let ghost p0 = *play_order;
    let n = es.len();
    let mut k: usize = 0;
    while k < n
        invariant
            k <= n,
            n == es@.len(),
            ind + 2 * toc_list_depth(es@) < usize::MAX,
            buf@ == b0 + ncx_points(es@.take(k as int), p0, ind as nat).0,
            *play_order == ncx_points(es@.take(k as int), p0, ind as nat).1,
        decreases n - k,
    {
        proof {
            lemma_list_depth_bounds(es@, k as int);
            assert(es@.take(k + 1).drop_last() == es@.take(k as int));
            assert(es@.take(k + 1).last() == es@[k as int]);
        }
        write_ncx_navpoint(buf, &es[k], play_order, ind);
        k += 1;
    }
    proof {
        assert(es@.take(n as int) == es@);
    }
}

/// The NCX document for a table of contents.
pub open spec fn ncx_document(title: Seq<char>, identifier: Seq<char>, toc: Seq<TocEntry>) -> Seq<char> {
    "<?xml version=\"1.0\" encoding=\"UTF-8\"?>\n<ncx xmlns=\"http://www.daisy.org/z3986/2005/ncx/\" version=\"2005-1\">\n  <head>\n    <meta name=\"dtb:uid\" content=\""@
        + xml_escape_spec(identifier) + "\"/>\n  </head>\n  <docTitle><text>"@
        + xml_escape_spec(title) + "</text></docTitle>\n  <navMap>\n"@ + ncx_points(toc, 1, 2).0
        + "  </navMap>\n</ncx>\n"@
}

/// Generate the NCX document from a title, an identifier and a table of contents.
pub fn generate_ncx_document(title: &str, identifier: &str, toc: &Vec<TocEntry>) -> (res: String)
    requires
        2 * toc_list_depth(toc@) + 2 < usize::MAX,
    ensures
        res@ == ncx_document(title@, identifier@, toc@),
{
    let mut ncx = String::new();
    push_str(
        &mut ncx,
        "<?xml version=\"1.0\" encoding=\"UTF-8\"?>\n<ncx xmlns=\"http://www.daisy.org/z3986/2005/ncx/\" version=\"2005-1\">\n  <head>\n    <meta name=\"dtb:uid\" content=\"",
    );
    xml_escape_into(&mut ncx, identifier);
    push_str(&mut ncx, "\"/>\n  </head>\n  <docTitle><text>");
    xml_escape_into(&mut ncx, title);
    push_str(&mut ncx, "</text></docTitle>\n  <navMap>\n");
    let mut play_order: u32 = 1;
    write_ncx_children(&mut ncx, toc, &mut play_order, 2);
    push_str(&mut ncx, "  </navMap>\n</ncx>\n");
    ncx
}

// ---------------------------------------------------------------------------
// Nav
// ---------------------------------------------------------------------------

/// The `<li>` of one Nav entry at indentation `ind`.
pub open spec fn nav_li(e: TocEntry, ind: nat) -> Seq<char>
    decreases e, 1nat,
{
    if e.children@.len() == 0 {
        indent(ind + 1) + "<li><a href=\""@ + xml_escape_spec(e.href@) + "\">"@
            + xml_escape_spec(e.title@) + "</a></li>\n"@
    } else {
        indent(ind + 1) + "<li>\n"@ + indent(ind + 2) + nav_label_spec(e) + nav_ol(
            e.children@,
            ind + 2,
        ) + (indent(ind + 1) + "</li>\n"@)
    }
}

/// The `<li>`s of a list of Nav entries at indentation `ind`.
pub open spec fn nav_lis(es: Seq<TocEntry>, ind: nat) -> Seq<char>
    decreases es, 0nat,
{
    if es.len() == 0 {
        Seq::empty()
    } else {
        nav_lis(es.drop_last(), ind) + nav_li(es.last(), ind)
    }
}

/// The `<ol>` of a list of Nav entries, or nothing for no entries.
pub open spec fn nav_ol(es: Seq<TocEntry>, ind: nat) -> Seq<char>
    decreases es, 2nat,
{
    if es.len() == 0 {
        Seq::empty()
    } else {
        indent(ind) + "<ol>\n"@ + nav_lis(es, ind) + indent(ind) + "</ol>\n"@
    }
}

/// Recursively write Nav <ol> elements.
fn write_nav_ol(buf: &mut String, entries: &Vec<TocEntry>, ind: usize)
    requires
        ind + 2 * toc_list_depth(entries@) + 2 < usize::MAX,
    ensures
        final(buf)@ == old(buf)@ + nav_ol(entries@, ind as nat),
    decreases entries@, 2nat,
{
    if entries.len() == 0 {
        return;
    }
    write_indent(buf, ind);
    push_str(buf, "<ol>\n");
    write_nav_lis(buf, entries, ind);
    write_indent(buf, ind);
    push_str(buf, "</ol>\n");
}

/// Write the `<li>`s of a list of Nav entries.
fn write_nav_lis(buf: &mut String, es: &Vec<TocEntry>, ind: usize)
    requires
        ind + 2 * toc_list_depth(es@) + 2 < usize::MAX,
    ensures
        final(buf)@ == old(buf)@ + nav_lis(es@, ind as nat),
    decreases es@, 1nat,
{
    let ghost b0 = buf@;
    let n = es.len();
    let mut k: usize = 0;
    while k < n
        invariant
            k <= n,
            n == es@.len(),
            ind + 2 * toc_list_depth(es@) + 2 < usize::MAX,
            buf@ == b0 + nav_lis(es@.take(k as int), ind as nat),
        decreases n - k,
    {
        proof {
            lemma_list_depth_bounds(es@, k as int);
            assert(es@.take(k + 1).drop_last() == es@.take(k as int));
            assert(es@.take(k + 1).last() == es@[k as int]);
        }
        write_nav_li(buf, &es[k], ind);
        k += 1;
    }
    proof {
        assert(es@.take(n as int) == es@);
    }
}

/// Write the `<li>` of one Nav entry.
fn write_nav_li(buf: &mut String, entry: &TocEntry, ind: usize)
    requires
        ind + 2 * toc_depth(*entry) + 2 < usize::MAX,
    ensures
        final(buf)@ == old(buf)@ + nav_li(*entry, ind as nat),
    decreases *entry, 0nat,
{
    if entry.children.len() == 0 {
        let mut li = indent_string(ind + 1);
        push_str(&mut li, "<li><a href=\"");
        xml_escape_into(&mut li, entry.href.as_str());
        push_str(&mut li, "\">");
        xml_escape_into(&mut li, entry.title.as_str());
        push_str(&mut li, "</a></li>\n");
        push_str(buf, li.as_str());
    } else {
        let mut open = indent_string(ind + 1);
        push_str(&mut open, "<li>\n");
        let i2 = indent_string(ind + 2);
        push_str(&mut open, i2.as_str());
        let label = nav_label(entry);
        push_str(&mut open, label.as_str());
        push_str(buf, open.as_str());
        write_nav_ol(buf, &entry.children, ind + 2);
        let mut close = indent_string(ind + 1);
        push_str(&mut close, "</li>\n");
        push_str(buf, close.as_str());
        proof {
            assert(buf@ =~= old(buf)@ + nav_li(*entry, ind as nat));
        }
    }
}

/// The label of a Nav entry with children: a link, or a span without one.
pub open spec fn nav_label_spec(e: TocEntry) -> Seq<char> {
    if e.href@.len() == 0 {
        "<span>"@ + xml_escape_spec(e.title@) + "</span>\n"@
    } else {
        "<a href=\""@ + xml_escape_spec(e.href@) + "\">"@ + xml_escape_spec(e.title@) + "</a>\n"@
    }
}

/// The label of a Nav entry with children.
fn nav_label(entry: &TocEntry) -> (res: String)
    ensures
        res@ == nav_label_spec(*entry),
{
    if entry.href.as_str().is_empty() {
        let mut s = "<span>".to_owned();
        xml_escape_into(&mut s, entry.title.as_str());
        push_str(&mut s, "</span>\n");
        s
    } else {
        let mut s = "<a href=\"".to_owned();
        xml_escape_into(&mut s, entry.href.as_str());
        push_str(&mut s, "\">");
        xml_escape_into(&mut s, entry.title.as_str());
        push_str(&mut s, "</a>\n");
        s
    }
}

/// The EPUB3 Nav document for a table of contents.
pub open spec fn nav_document(toc: Seq<TocEntry>) -> Seq<char> {
    "<?xml version=\"1.0\" encoding=\"UTF-8\"?>\n<html xmlns=\"http://www.w3.org/1999/xhtml\" xmlns:epub=\"http://www.idpf.org/2007/ops\">\n<head><title>Table of Contents</title></head>\n<body>\n  <nav epub:type=\"toc\">\n    <h1>Table of Contents</h1>\n"@
        + nav_ol(toc, 2) + "  </nav>\n</body>\n</html>\n"@
}

/// Generate an EPUB3 Nav document from a table of contents.
pub fn generate_nav_document(toc: &Vec<TocEntry>) -> (res: String)
    requires
        2 * toc_list_depth(toc@) + 4 < usize::MAX,
    ensures
        res@ == nav_document(toc@),
{
    let mut nav = String::new();
    push_str(
        &mut nav,
        "<?xml version=\"1.0\" encoding=\"UTF-8\"?>\n<html xmlns=\"http://www.w3.org/1999/xhtml\" xmlns:epub=\"http://www.idpf.org/2007/ops\">\n<head><title>Table of Contents</title></head>\n<body>\n  <nav epub:type=\"toc\">\n    <h1>Table of Contents</h1>\n",
    );
    write_nav_ol(&mut nav, toc, 2);
    push_str(&mut nav, "  </nav>\n</body>\n</html>\n");
    nav
}

// ---------------------------------------------------------------------------
// Attribute order
// ---------------------------------------------------------------------------

/// `a` sorts before or equal to `b`, comparing characters by code point.
pub open spec fn text_le(a: Seq<char>, b: Seq<char>) -> bool
    decreases a.len(),
{
    if a.len() == 0 {
        true
    } else if b.len() == 0 {
        false
    } else if a[0] != b[0] {
        (a[0] as u32) < (b[0] as u32)
    } else {
        text_le(a.drop_first(), b.drop_first())
    }
}

/// Attribute pairs as the contracts see them.
pub type Attrs = Seq<(Seq<char>, Seq<char>)>;

/// `s` (sorted by name) with `p` inserted after every pair whose name sorts
/// before or equal to its name.
pub open spec fn insert_sorted(s: Attrs, p: (Seq<char>, Seq<char>)) -> Attrs
    decreases s.len(),
{
    if s.len() == 0 || text_le(s.last().0, p.0) {
        s.push(p)
    } else {
        insert_sorted(s.drop_last(), p).push(s.last())
    }
}

/// The attribute pairs sorted by name, keeping the order of equal names.
pub open spec fn sort_attrs(s: Attrs) -> Attrs
    decreases s.len(),
{
    if s.len() == 0 {
        s
    } else {
        insert_sorted(sort_attrs(s.drop_last()), s.last())
    }
}

/// Whether `a` sorts before or equal to `b`.
fn text_le_exec(a: &[char], b: &[char]) -> (res: bool)
    ensures
        res == text_le(a@, b@),
{
    let mut i: usize = 0;
    proof {
        assert(a@.skip(0) == a@);
        assert(b@.skip(0) == b@);
    }
    while i < a.len()
        invariant
            i <= a@.len(),
            i <= b@.len(),
            text_le(a@, b@) == text_le(a@.skip(i as int), b@.skip(i as int)),
        decreases a@.len() - i,
    {
        if i >= b.len() {
            return false;
        }
        if a[i] != b[i] {
            return (a[i] as u32) < (b[i] as u32);
        }
        proof {
            assert(a@.skip(i as int).drop_first() == a@.skip(i + 1));
            assert(b@.skip(i as int).drop_first() =~= b@.skip(i + 1));
        }
        i += 1;
    }
    true
}

proof fn lemma_insert_at(s: Attrs, p: (Seq<char>, Seq<char>), j: int)
    requires
        0 <= j <= s.len(),
        j == 0 || text_le(s[j - 1].0, p.0),
        forall|k: int| j <= k < s.len() ==> !text_le(#[trigger] s[k].0, p.0),
    ensures
        insert_sorted(s, p) == s.take(j).push(p) + s.skip(j),
    decreases s.len(),
{
    if s.len() == j {
        assert(s.skip(j) =~= Seq::<(Seq<char>, Seq<char>)>::empty());
        assert(s.take(j) =~= s);
    } else {
        lemma_insert_at(s.drop_last(), p, j);
        assert(s.drop_last().take(j) =~= s.take(j));
        assert(s.skip(j) =~= s.drop_last().skip(j).push(s.last()));
    }
}

/// The attribute pairs of `a`, copied and sorted by name.
fn sorted_attrs(a: &Vec<(String, String)>) -> (res: Vec<(String, String)>)
    ensures
        crate::metadata::attrs_view(res@) == sort_attrs(crate::metadata::attrs_view(a@)),
{
    let n = a.len();
    let ghost av = crate::metadata::attrs_view(a@);
    let mut out: Vec<(String, String)> = Vec::new();
    let mut i: usize = 0;
    while i < n
        invariant
            i <= n,
            n == a@.len(),
            av == crate::metadata::attrs_view(a@),
            crate::metadata::attrs_view(out@) == sort_attrs(av.take(i as int)),
        decreases n - i,
    {
        let key = chars_of(a[i].0.as_str());
        let mut j = out.len();
        let ghost ov = crate::metadata::attrs_view(out@);
        let mut done = false;
        while j > 0 && !done
            invariant
                j <= out@.len(),
                ov == crate::metadata::attrs_view(out@),
                key@ == av[i as int].0,
                done ==> j > 0 && text_le(ov[j - 1].0, av[i as int].0),
                forall|k: int| j <= k < ov.len() ==> !text_le(#[trigger] ov[k].0, av[i as int].0),
            decreases j, if done { 0int } else { 1int },
        {
            let other = chars_of(out[j - 1].0.as_str());
            if text_le_exec(other.as_slice(), key.as_slice()) {
                done = true;
            } else {
                j -= 1;
            }
        }
        proof {
            lemma_insert_at(ov, av[i as int], j as int);
            assert(av.take(i + 1).drop_last() == av.take(i as int));
        }
        let ghost before = out@;
        out.insert(j, (a[i].0.clone(), a[i].1.clone()));
        proof {
            assert(out@ == before.take(j as int).push(a@[i as int]) + before.skip(j as int));
            assert(crate::metadata::attrs_view(out@) =~= ov.take(j as int).push(av[i as int]) + ov.skip(j as int));
        }
        i += 1;
    }
    proof {
        assert(av.take(n as int) == av);
    }
    out
}

// ---------------------------------------------------------------------------
// Dublin Core elements
// ---------------------------------------------------------------------------

/// A refinement to emit as `<meta refines="#target" property="...">value</meta>`.
pub type Refine = (Seq<char>, Seq<char>, Seq<char>);

/// The refinements as the contracts see them.
pub open spec fn refines_view(v: Seq<(String, String, String)>) -> Seq<Refine> {
    v.map_values(|r: (String, String, String)| (r.0@, r.1@, r.2@))
}

/// The EPUB3 property that an EPUB2 `opf:` attribute of a DC element becomes.
pub open spec fn refine_property(k: Seq<char>) -> Option<Seq<char>> {
    if k == "opf:role"@ {
        Some("role"@)
    } else if k == "opf:file-as"@ {
        Some("file-as"@)
    } else if k == "opf:event"@ {
        Some("event"@)
    } else if k == "opf:scheme"@ {
        Some("scheme"@)
    } else {
        None
    }
}

/// Whether `name` is legal on a DC element under EPUB 3.
pub open spec fn epub3_dc_attr(name: Seq<char>) -> bool {
    name == "id"@ || name == "dir"@ || name == "xml:lang"@
}

/// Whether `attr_name` is legal on a DC element under EPUB 3. EPUB2-only
/// `opf:*` refinements (role, file-as, event, scheme) are not.
pub fn is_epub3_dc_attr(name: &str) -> (res: bool)
    ensures
        res == epub3_dc_attr(name@),
{
    text::str_eq(name, "id") || text::str_eq(name, "dir") || text::str_eq(name, "xml:lang")
}

/// The text ` name="value"` of an attribute.
pub open spec fn attr_text(k: Seq<char>, v: Seq<char>) -> Seq<char> {
    " "@ + xml_escape_spec(k) + "=\""@ + xml_escape_spec(v) + "\""@
}

/// The attributes written on a DC element, from its sorted attribute pairs,
/// and the refinements queued for it: unsafe names and `id` are skipped; on
/// EPUB3 an attribute not legal there is dropped, and the `opf:` ones among
/// them become refinements of the element `rid` names.
pub open spec fn dc_attrs(s: Attrs, epub3: bool, rid: Option<Seq<char>>) -> (Seq<char>, Seq<Refine>)
    decreases s.len(),
{
    if s.len() == 0 {
        (Seq::empty(), Seq::empty())
    } else {
        let (t, r) = dc_attrs(s.drop_last(), epub3, rid);
        let (k, v) = s.last();
        if !safe_name(k) || k == "id"@ {
            (t, r)
        } else if epub3 && !epub3_dc_attr(k) {
            (
                t,
                match (refine_property(k), rid) {
                    (Some(prop), Some(target)) => r.push((target, prop, v)),
                    _ => r,
                },
            )
        } else {
            (t + attr_text(k, v), r)
        }
    }
}

/// Some attribute of the element becomes a refinement on EPUB3.
pub open spec fn needs_refines_id(attrs: Attrs) -> bool {
    exists|i: int| 0 <= i < attrs.len() && (#[trigger] refine_property(attrs[i].0)) is Some
}

/// The id written on a DC element, and the id counter after it: the given
/// id, else the element's own `id` attribute, else on EPUB3 a fresh
/// `dc-id-N` when the element has attributes to turn into refinements.
pub open spec fn dc_resolved_id(
    item: crate::metadata::ItemView,
    override_id: Option<Seq<char>>,
    epub3: bool,
    counter: u32,
) -> (Option<Seq<char>>, u32) {
    match override_id {
        Some(id) => (Some(id), counter),
        None => match crate::metadata::lookup(item.1, "id"@) {
            Some(id) => (Some(id), counter),
            None => if epub3 && needs_refines_id(item.1) {
                (Some("dc-id-"@ + decimal(next_order(counter) as nat)), next_order(counter))
            } else {
                (None, counter)
            },
        },
    }
}

/// A `<dc:tag>` element, the refinements it queues and the id counter after it.
pub open spec fn dc_element(
    tag: Seq<char>,
    item: crate::metadata::ItemView,
    override_id: Option<Seq<char>>,
    epub3: bool,
    counter: u32,
) -> (Seq<char>, Seq<Refine>, u32) {
    let (rid, c) = dc_resolved_id(item, override_id, epub3, counter);
    let (atext, refs) = dc_attrs(sort_attrs(item.1), epub3, rid);
    let text = "    <dc:"@ + tag + atext + match rid {
        Some(id) => " id=\""@ + xml_escape_spec(id) + "\""@,
        None => Seq::empty(),
    } + ">"@ + xml_escape_spec(item.0) + "</dc:"@ + tag + ">\n"@;
    (text, refs, c)
}

/// Appends ` name="value"`.
fn push_attr(buf: &mut String, k: &str, v: &str)
    ensures
        final(buf)@ == old(buf)@ + attr_text(k@, v@),
{
    let mut t = " ".to_owned();
    xml_escape_into(&mut t, k);
    push_str(&mut t, "=\"");
    xml_escape_into(&mut t, v);
    push_str(&mut t, "\"");
    push_str(buf, t.as_str());
}

/// The EPUB3 property for an `opf:` attribute name.
fn refine_property_exec(k: &str) -> (res: Option<&'static str>)
    ensures
        text::opt_view(res) == refine_property(k@),
{
    if text::str_eq(k, "opf:role") {
        Some("role")
    } else if text::str_eq(k, "opf:file-as") {
        Some("file-as")
    } else if text::str_eq(k, "opf:event") {
        Some("event")
    } else if text::str_eq(k, "opf:scheme") {
        Some("scheme")
    } else {
        None
    }
}

/// Write the attributes of a DC element and queue its refinements.
fn write_dc_attrs(
    opf: &mut String,
    sorted: &Vec<(String, String)>,
    epub3: bool,
    rid: Option<&str>,
    pending: &mut Vec<(String, String, String)>,
)
    ensures
        final(opf)@ == old(opf)@ + dc_attrs(
            crate::metadata::attrs_view(sorted@),
            epub3,
            text::opt_view(rid),
        ).0,
        refines_view(final(pending)@) == refines_view(old(pending)@) + dc_attrs(
            crate::metadata::attrs_view(sorted@),
            epub3,
            text::opt_view(rid),
        ).1,
{
    let ghost o0 = opf@;
    let ghost p0 = refines_view(pending@);
    let ghost sv = crate::metadata::attrs_view(sorted@);
    let ghost r = text::opt_view(rid);
    let n = sorted.len();
    let mut i: usize = 0;
    while i < n
        invariant
            i <= n,
            n == sorted@.len(),
            sv == crate::metadata::attrs_view(sorted@),
            r == text::opt_view(rid),
            opf@ == o0 + dc_attrs(sv.take(i as int), epub3, r).0,
            refines_view(pending@) == p0 + dc_attrs(sv.take(i as int), epub3, r).1,
        decreases n - i,
    {
        proof {
            assert(sv.take(i + 1).drop_last() == sv.take(i as int));
            assert(sv.take(i + 1).last() == sv[i as int]);
        }
        let k = sorted[i].0.as_str();
        let v = sorted[i].1.as_str();
        if !is_safe_xml_name(k) || text::str_eq(k, "id") {
        } else if epub3 && !is_epub3_dc_attr(k) {
            if let Some(prop) = refine_property_exec(k) {
                if let Some(target) = rid {
                    let ghost before = pending@;
                    pending.push((target.to_owned(), prop.to_owned(), v.to_owned()));
                    proof {
                        assert(refines_view(pending@) =~= refines_view(before).push(
                            (target@, prop@, v@),
                        ));
                    }
                }
            }
        } else {
            push_attr(opf, k, v);
        }
        i += 1;
    }
    proof {
        assert(sv.take(n as int) == sv);
    }
}

/// Whether some attribute becomes a refinement on EPUB3.
fn needs_refines_id_exec(attrs: &Vec<(String, String)>) -> (res: bool)
    ensures
        res == needs_refines_id(crate::metadata::attrs_view(attrs@)),
{
    let n = attrs.len();
    let ghost av = crate::metadata::attrs_view(attrs@);
    let mut i: usize = 0;
    while i < n
        invariant
            i <= n,
            n == attrs@.len(),
            av == crate::metadata::attrs_view(attrs@),
            forall|k: int| 0 <= k < i ==> (#[trigger] refine_property(av[k].0)) is None,
        decreases n - i,
    {
        if refine_property_exec(attrs[i].0.as_str()).is_some() {
            assert(refine_property(av[i as int].0) is Some);
            return true;
        }
        i += 1;
    }
    false
}

/// The id to write on a DC element, advancing the counter when one is made up.
fn resolve_dc_id(
    item: &crate::metadata::MetadataItem,
    override_id: Option<&str>,
    writing_epub3: bool,
    id_counter: &mut u32,
) -> (res: Option<String>)
    ensures
        ({
            let (rid, c) = dc_resolved_id(item@, text::opt_view(override_id), writing_epub3, *old(id_counter));
            &&& *final(id_counter) == c
            &&& match res {
                Some(s) => rid == Some(s@),
                None => rid is None,
            }
        }),
{
    match override_id {
        Some(id) => Some(id.to_owned()),
        None => match item.attribute("id") {
            Some(id) => Some(id.to_owned()),
            None => {
                if writing_epub3 && needs_refines_id_exec(&item.attributes) {
                    *id_counter = id_counter.wrapping_add(1);
                    let mut s = "dc-id-".to_owned();
                    push_decimal(&mut s, *id_counter as u64);
                    Some(s)
                } else {
                    None
                }
            },
        },
    }
}

/// Emit a `<dc:{tag}>` element, queueing refinements for EPUB3 output.
fn write_dc_element(
    opf: &mut String,
    tag: &str,
    item: &crate::metadata::MetadataItem,
    override_id: Option<&str>,
    writing_epub3: bool,
    pending: &mut Vec<(String, String, String)>,
    id_counter: &mut u32,
)
    ensures
        final(opf)@ == old(opf)@ + dc_element(
            tag@,
            item@,
            text::opt_view(override_id),
            writing_epub3,
            *old(id_counter),
        ).0,
        refines_view(final(pending)@) == refines_view(old(pending)@) + dc_element(
            tag@,
            item@,
            text::opt_view(override_id),
            writing_epub3,
            *old(id_counter),
        ).1,
        *final(id_counter) == dc_element(
            tag@,
            item@,
            text::opt_view(override_id),
            writing_epub3,
            *old(id_counter),
        ).2,
{
    let resolved = resolve_dc_id(item, override_id, writing_epub3, id_counter);
    let rid: Option<&str> = match &resolved {
        Some(s) => Some(s.as_str()),
        None => None,
    };
    let sorted = sorted_attrs(&item.attributes);
    let mut text = "    <dc:".to_owned();
    push_str(&mut text, tag);
    write_dc_attrs(&mut text, &sorted, writing_epub3, rid, pending);
    if let Some(id) = rid {
        push_str(&mut text, " id=\"");
        xml_escape_into(&mut text, id);
        push_str(&mut text, "\"");
    }
    push_str(&mut text, ">");
    xml_escape_into(&mut text, item.value.as_str());
    push_str(&mut text, "</dc:");
    push_str(&mut text, tag);
    push_str(&mut text, ">\n");
    push_str(opf, text.as_str());
}

// ---------------------------------------------------------------------------
// OPF <meta> elements
// ---------------------------------------------------------------------------

/// The text of the attributes whose names are safe, in the given order.
pub open spec fn safe_attrs_text(s: Attrs) -> Seq<char>
    decreases s.len(),
{
    if s.len() == 0 {
        Seq::empty()
    } else {
        safe_attrs_text(s.drop_last()) + if safe_name(s.last().0) {
            attr_text(s.last().0, s.last().1)
        } else {
            Seq::empty()
        }
    }
}

/// Some attribute with a safe name is named `k`.
pub open spec fn has_safe_key(s: Attrs, k: Seq<char>) -> bool
    decreases s.len(),
{
    s.len() > 0 && (has_safe_key(s.drop_last(), k) || (safe_name(s.last().0) && s.last().0 == k))
}

/// Some attribute is named `k`.
pub open spec fn has_key(s: Attrs, k: Seq<char>) -> bool {
    exists|i: int| 0 <= i < s.len() && #[trigger] s[i].0 == k
}

/// An EPUB3-style `<meta property="...">value</meta>` element, echoing the
/// captured attributes.
pub open spec fn epub3_meta(name: Seq<char>, item: crate::metadata::ItemView) -> Seq<char> {
    let sorted = sort_attrs(item.1);
    "    <meta"@ + safe_attrs_text(sorted) + (if has_safe_key(sorted, "property"@) {
        Seq::empty()
    } else {
        " property=\""@ + xml_escape_spec(name) + "\""@
    }) + ">"@ + xml_escape_spec(item.0) + "</meta>\n"@
}

/// An EPUB2-style `<meta name="..." content="..."/>` element, echoing the
/// captured attributes.
pub open spec fn epub2_meta(name: Seq<char>, item: crate::metadata::ItemView) -> Seq<char> {
    let sorted = sort_attrs(item.1);
    "    <meta"@ + safe_attrs_text(sorted) + (if has_safe_key(sorted, "name"@) {
        Seq::empty()
    } else {
        " name=\""@ + xml_escape_spec(name) + "\""@
    }) + (if has_safe_key(sorted, "content"@) {
        Seq::empty()
    } else {
        " content=\""@ + xml_escape_spec(item.0) + "\""@
    }) + "/>\n"@
}

/// The `<meta>` element for one OPF metadata value: EPUB3 style when it has
/// a `property` attribute, EPUB2 style when it has `name` or `content`,
/// otherwise EPUB3 style for a name with a colon and EPUB2 style else.
pub open spec fn opf_meta(name: Seq<char>, item: crate::metadata::ItemView) -> Seq<char> {
    if has_key(item.1, "property"@) {
        epub3_meta(name, item)
    } else if has_key(item.1, "name"@) || has_key(item.1, "content"@) {
        epub2_meta(name, item)
    } else if text::contains(name, ":"@) {
        epub3_meta(name, item)
    } else {
        epub2_meta(name, item)
    }
}

/// The `<meta>` elements for the values of one OPF field.
pub open spec fn opf_metas_of(name: Seq<char>, items: Seq<crate::metadata::ItemView>) -> Seq<char>
    decreases items.len(),
{
    if items.len() == 0 {
        Seq::empty()
    } else {
        opf_metas_of(name, items.drop_last()) + opf_meta(name, items.last())
    }
}

/// The `<meta>` elements for all OPF fields with safe names.
pub open spec fn opf_metas(fields: crate::metadata::FieldsView) -> Seq<char>
    decreases fields.len(),
{
    if fields.len() == 0 {
        Seq::empty()
    } else {
        opf_metas(fields.drop_last()) + if safe_name(fields.last().0) {
            opf_metas_of(fields.last().0, fields.last().1)
        } else {
            Seq::empty()
        }
    }
}

/// Writes the attributes with safe names, and says whether one is named `k1`
/// and whether one is named `k2`.
fn write_safe_attrs(buf: &mut String, sorted: &Vec<(String, String)>, k1: &str, k2: &str) -> (res: (
    bool,
    bool,
))
    ensures
        final(buf)@ == old(buf)@ + safe_attrs_text(crate::metadata::attrs_view(sorted@)),
        res.0 == has_safe_key(crate::metadata::attrs_view(sorted@), k1@),
        res.1 == has_safe_key(crate::metadata::attrs_view(sorted@), k2@),
{
    let ghost b0 = buf@;
    let ghost sv = crate::metadata::attrs_view(sorted@);
    let n = sorted.len();
    let mut e1 = false;
    let mut e2 = false;
    let mut i: usize = 0;
    while i < n
        invariant
            i <= n,
            n == sorted@.len(),
            sv == crate::metadata::attrs_view(sorted@),
            buf@ == b0 + safe_attrs_text(sv.take(i as int)),
            e1 == has_safe_key(sv.take(i as int), k1@),
            e2 == has_safe_key(sv.take(i as int), k2@),
        decreases n - i,
    {
        proof {
            assert(sv.take(i + 1).drop_last() == sv.take(i as int));
            assert(sv.take(i + 1).last() == sv[i as int]);
        }
        let k = sorted[i].0.as_str();
        let v = sorted[i].1.as_str();
        let ghost t = sv.take(i + 1);
        if is_safe_xml_name(k) {
            push_attr(buf, k, v);
            if text::str_eq(k, k1) {
                e1 = true;
            }
            if text::str_eq(k, k2) {
                e2 = true;
            }
        }
        i += 1;
    }
    proof {
        assert(sv.take(n as int) == sv);
    }
    (e1, e2)
}

/// Emit an EPUB3-style `<meta property="...">value</meta>` element.
fn write_epub3_meta(opf: &mut String, property_name: &str, item: &crate::metadata::MetadataItem)
    ensures
        final(opf)@ == old(opf)@ + epub3_meta(property_name@, item@),
{
    let sorted = sorted_attrs(&item.attributes);
    let mut t = "    <meta".to_owned();
    let (emitted_property, _) = write_safe_attrs(&mut t, &sorted, "property", "property");
    if !emitted_property {
        push_str(&mut t, " property=\"");
        xml_escape_into(&mut t, property_name);
        push_str(&mut t, "\"");
    }
    push_str(&mut t, ">");
    xml_escape_into(&mut t, item.value.as_str());
    push_str(&mut t, "</meta>\n");
    push_str(opf, t.as_str());
}

/// Emit an EPUB2-style `<meta name="..." content="..."/>` element.
fn write_epub2_meta(opf: &mut String, meta_name: &str, item: &crate::metadata::MetadataItem)
    ensures
        final(opf)@ == old(opf)@ + epub2_meta(meta_name@, item@),
{
    let sorted = sorted_attrs(&item.attributes);
    let mut t = "    <meta".to_owned();
    let (emitted_name, emitted_content) = write_safe_attrs(&mut t, &sorted, "name", "content");
    if !emitted_name {
        push_str(&mut t, " name=\"");
        xml_escape_into(&mut t, meta_name);
        push_str(&mut t, "\"");
    }
    if !emitted_content {
        push_str(&mut t, " content=\"");
        xml_escape_into(&mut t, item.value.as_str());
        push_str(&mut t, "\"");
    }
    push_str(&mut t, "/>\n");
    push_str(opf, t.as_str());
}

/// Whether some attribute is named `k`.
fn has_key_exec(attrs: &Vec<(String, String)>, k: &str) -> (res: bool)
    ensures
        res == has_key(crate::metadata::attrs_view(attrs@), k@),
{
    let n = attrs.len();
    let ghost av = crate::metadata::attrs_view(attrs@);
    let mut i: usize = 0;
    while i < n
        invariant
            i <= n,
            n == attrs@.len(),
            av == crate::metadata::attrs_view(attrs@),
            forall|j: int| 0 <= j < i ==> av[j].0 != k@,
        decreases n - i,
    {
        if text::str_eq(attrs[i].0.as_str(), k) {
            assert(av[i as int].0 == k@);
            return true;
        }
        i += 1;
    }
    false
}

/// Emit the `<meta>` element for one OPF metadata value.
fn write_opf_meta(opf: &mut String, name: &str, item: &crate::metadata::MetadataItem)
    ensures
        final(opf)@ == old(opf)@ + opf_meta(name@, item@),
{
    if has_key_exec(&item.attributes, "property") {
        write_epub3_meta(opf, name, item);
    } else if has_key_exec(&item.attributes, "name") || has_key_exec(&item.attributes, "content") {
        write_epub2_meta(opf, name, item);
    } else if text::str_contains(name, ":") {
        write_epub3_meta(opf, name, item);
    } else {
        write_epub2_meta(opf, name, item);
    }
}

/// Emit the `<meta>` elements for all OPF fields with safe names.
fn write_opf_metas(opf: &mut String, fields: &Vec<(String, Vec<crate::metadata::MetadataItem>)>)
    ensures
        final(opf)@ == old(opf)@ + opf_metas(crate::metadata::fields_view(fields@)),
{
    let ghost o0 = opf@;
    let ghost fv = crate::metadata::fields_view(fields@);
    let n = fields.len();
    let mut i: usize = 0;
    while i < n
        invariant
            i <= n,
            n == fields@.len(),
            fv == crate::metadata::fields_view(fields@),
            opf@ == o0 + opf_metas(fv.take(i as int)),
        decreases n - i,
    {
        proof {
            assert(fv.take(i + 1).drop_last() == fv.take(i as int));
            assert(fv.take(i + 1).last() == fv[i as int]);
        }
        let name = fields[i].0.as_str();
        if is_safe_xml_name(name) {
            let items = &fields[i].1;
            let ghost iv = crate::metadata::items_view(items@);
            let ghost o1 = opf@;
            let m = items.len();
            let mut j: usize = 0;
            while j < m
                invariant
                    j <= m,
                    m == items@.len(),
                    iv == crate::metadata::items_view(items@),
                    opf@ == o1 + opf_metas_of(name@, iv.take(j as int)),
                decreases m - j,
            {
                proof {
                    assert(iv.take(j + 1).drop_last() == iv.take(j as int));
                    assert(iv.take(j + 1).last() == iv[j as int]);
                }
                write_opf_meta(opf, name, &items[j]);
                j += 1;
            }
            proof {
                assert(iv.take(m as int) == iv);
            }
        }
        i += 1;
    }
    proof {
        assert(fv.take(n as int) == fv);
    }
}

// ---------------------------------------------------------------------------
// The Dublin Core section
// ---------------------------------------------------------------------------

/// The state threaded through the DC elements: text, refinements, id counter.
pub type DcState = (Seq<char>, Seq<Refine>, u32);

/// The DC elements for the values of one field, after state `st`. For the
/// identifier field (`ident` given) the first element carries that id and
/// the others their own `id` attribute.
pub open spec fn dc_list(
    tag: Seq<char>,
    items: Seq<crate::metadata::ItemView>,
    ident: Option<Seq<char>>,
    epub3: bool,
    st: DcState,
) -> DcState
    decreases items.len(),
{
    if items.len() == 0 {
        st
    } else {
        let st1 = dc_list(tag, items.drop_last(), ident, epub3, st);
        let ov = match ident {
            Some(id) => if items.len() == 1 {
                Some(id)
            } else {
                crate::metadata::lookup(items.last().1, "id"@)
            },
            None => None,
        };
        let (t, r, c) = dc_element(tag, items.last(), ov, epub3, st1.2);
        (st1.0 + t, st1.1 + r, c)
    }
}

/// The four DC fields written first, in this order.
pub open spec fn main_dc_field(name: Seq<char>) -> bool {
    name == "identifier"@ || name == "title"@ || name == "language"@ || name == "creator"@
}

/// The DC elements for the other fields with safe names, in map order.
pub open spec fn dc_others(fields: crate::metadata::FieldsView, epub3: bool, st: DcState) -> DcState
    decreases fields.len(),
{
    if fields.len() == 0 {
        st
    } else {
        let st1 = dc_others(fields.drop_last(), epub3, st);
        let (name, items) = fields.last();
        if main_dc_field(name) || !safe_name(name) {
            st1
        } else {
            dc_list(name, items, None, epub3, st1)
        }
    }
}

/// The DC elements of one of the four main fields, if it is present.
pub open spec fn dc_main(
    fields: crate::metadata::FieldsView,
    name: Seq<char>,
    ident: Option<Seq<char>>,
    epub3: bool,
    st: DcState,
) -> DcState {
    match crate::metadata::lookup(fields, name) {
        Some(items) => dc_list(name, items, ident, epub3, st),
        None => st,
    }
}

/// All DC elements and the refinements they queue.
pub open spec fn dc_section(dc: Option<crate::metadata::FieldsView>, ident: Seq<char>, epub3: bool) -> (
    Seq<char>,
    Seq<Refine>,
) {
    match dc {
        Some(f) => {
            let st0: DcState = (Seq::empty(), Seq::empty(), 0u32);
            let st1 = dc_main(f, "identifier"@, Some(ident), epub3, st0);
            let st2 = dc_main(f, "title"@, None, epub3, st1);
            let st3 = dc_main(f, "language"@, None, epub3, st2);
            let st4 = dc_main(f, "creator"@, None, epub3, st3);
            let st5 = dc_others(f, epub3, st4);
            (st5.0, st5.1)
        },
        None => (Seq::empty(), Seq::empty()),
    }
}

/// Writes the DC elements of one field.
fn write_dc_list(
    opf: &mut String,
    tag: &str,
    items: &Vec<crate::metadata::MetadataItem>,
    ident: Option<&str>,
    epub3: bool,
    pending: &mut Vec<(String, String, String)>,
    counter: &mut u32,
)
    ensures
        ({
            let st = dc_list(
                tag@,
                crate::metadata::items_view(items@),
                text::opt_view(ident),
                epub3,
                (old(opf)@, refines_view(old(pending)@), *old(counter)),
            );
            &&& final(opf)@ == st.0
            &&& refines_view(final(pending)@) == st.1
            &&& *final(counter) == st.2
        }),
{
    let ghost st0 = (opf@, refines_view(pending@), *counter);
    let ghost iv = crate::metadata::items_view(items@);
    let n = items.len();
    let mut i: usize = 0;
    while i < n
        invariant
            i <= n,
            n == items@.len(),
            iv == crate::metadata::items_view(items@),
            (opf@, refines_view(pending@), *counter) == dc_list(tag@, iv.take(i as int), text::opt_view(ident), epub3, st0),
        decreases n - i,
    {
        proof {
            assert(iv.take(i + 1).drop_last() == iv.take(i as int));
            assert(iv.take(i + 1).last() == iv[i as int]);
        }
        let ov: Option<&str> = match ident {
            Some(id) => if i == 0 {
                Some(id)
            } else {
                items[i].attribute("id")
            },
            None => None,
        };
        write_dc_element(opf, tag, &items[i], ov, epub3, pending, counter);
        i += 1;
    }
    proof {
        assert(iv.take(n as int) == iv);
    }
}

/// Whether `name` is one of the four main DC fields.
fn main_dc_field_exec(name: &str) -> (res: bool)
    ensures
        res == main_dc_field(name@),
{
    text::str_eq(name, "identifier") || text::str_eq(name, "title") || text::str_eq(name, "language")
        || text::str_eq(name, "creator")
}

/// Writes the DC elements of one of the four main fields.
fn write_dc_main(
    opf: &mut String,
    fields: &Vec<(String, Vec<crate::metadata::MetadataItem>)>,
    name: &str,
    ident: Option<&str>,
    epub3: bool,
    pending: &mut Vec<(String, String, String)>,
    counter: &mut u32,
)
    ensures
        ({
            let st = dc_main(
                crate::metadata::fields_view(fields@),
                name@,
                text::opt_view(ident),
                epub3,
                (old(opf)@, refines_view(old(pending)@), *old(counter)),
            );
            &&& final(opf)@ == st.0
            &&& refines_view(final(pending)@) == st.1
            &&& *final(counter) == st.2
        }),
{
    let ghost fv = crate::metadata::fields_view(fields@);
    let n = fields.len();
    let mut i: usize = 0;
    while i < n
        invariant
            i <= n,
            n == fields@.len(),
            fv == crate::metadata::fields_view(fields@),
            forall|j: int| 0 <= j < i ==> fv[j].0 != name@,
            opf@ == old(opf)@,
            pending@ == old(pending)@,
            *counter == *old(counter),
        decreases n - i,
    {
        if text::str_eq(fields[i].0.as_str(), name) {
            proof {
                crate::metadata::lemma_key_index_found(fv, name@, i as int);
                assert(crate::metadata::lookup(fv, name@) == Some(fv[i as int].1));
                assert(fv[i as int].1 == crate::metadata::items_view(fields@[i as int].1@));
            }
            write_dc_list(opf, name, &fields[i].1, ident, epub3, pending, counter);
            return;
        }
        i += 1;
    }
    proof {
        crate::metadata::lemma_key_index_props(fv, name@);
        if crate::metadata::key_index(fv, name@) is Some {
            let k = crate::metadata::key_index(fv, name@)->0;
            assert(fv[k].0 == name@);
        }
        assert(crate::metadata::lookup(fv, name@) is None);
    }
}

/// Writes the DC elements of the other fields.
fn write_dc_others(
    opf: &mut String,
    fields: &Vec<(String, Vec<crate::metadata::MetadataItem>)>,
    epub3: bool,
    pending: &mut Vec<(String, String, String)>,
    counter: &mut u32,
)
    ensures
        ({
            let st = dc_others(
                crate::metadata::fields_view(fields@),
                epub3,
                (old(opf)@, refines_view(old(pending)@), *old(counter)),
            );
            &&& final(opf)@ == st.0
            &&& refines_view(final(pending)@) == st.1
            &&& *final(counter) == st.2
        }),
{
    let ghost st0 = (opf@, refines_view(pending@), *counter);
    let ghost fv = crate::metadata::fields_view(fields@);
    let n = fields.len();
    let mut i: usize = 0;
    while i < n
        invariant
            i <= n,
            n == fields@.len(),
            fv == crate::metadata::fields_view(fields@),
            (opf@, refines_view(pending@), *counter) == dc_others(fv.take(i as int), epub3, st0),
        decreases n - i,
    {
        proof {
            assert(fv.take(i + 1).drop_last() == fv.take(i as int));
            assert(fv.take(i + 1).last() == fv[i as int]);
        }
        let name = fields[i].0.as_str();
        if !main_dc_field_exec(name) && is_safe_xml_name(name) {
            write_dc_list(opf, name, &fields[i].1, None, epub3, pending, counter);
        }
        i += 1;
    }
    proof {
        assert(fv.take(n as int) == fv);
    }
}

// ---------------------------------------------------------------------------
// The package document
// ---------------------------------------------------------------------------

/// The book is written as EPUB3 unless its version starts with `2`.
pub open spec fn writes_epub3(version: Seq<char>) -> bool {
    !text::starts_with(version, "2"@)
}

/// The id that `unique-identifier` names: the first identifier's `id`
/// attribute when it is a safe name, else `BookId`.
pub open spec fn identifier_id(m: crate::metadata::MetadataView) -> Seq<char> {
    match crate::metadata::field_values(m, "DC"@, "identifier"@) {
        Some(items) => if items.len() > 0 {
            match crate::metadata::lookup(items[0].1, "id"@) {
                Some(id) => if safe_name(id) {
                    id
                } else {
                    "BookId"@
                },
                None => "BookId"@,
            }
        } else {
            "BookId"@
        },
        None => "BookId"@,
    }
}

/// The start of the package document, up to the opening of `<metadata>`.
pub open spec fn opf_head(epub3: bool, ident: Seq<char>) -> Seq<char> {
    "<?xml version=\"1.0\" encoding=\"UTF-8\"?>\n<package xmlns=\"http://www.idpf.org/2007/opf\" version=\""@
        + (if epub3 {
        "3.0"@
    } else {
        "2.0"@
    }) + "\" unique-identifier=\""@ + xml_escape_spec(ident)
        + "\">\n  <metadata xmlns:dc=\"http://purl.org/dc/elements/1.1/\" xmlns:opf=\"http://www.idpf.org/2007/opf\">\n"@
}

/// The `<meta refines=...>` elements for queued refinements.
pub open spec fn refines_text(rs: Seq<Refine>) -> Seq<char>
    decreases rs.len(),
{
    if rs.len() == 0 {
        Seq::empty()
    } else {
        refines_text(rs.drop_last()) + "    <meta refines=\"#"@ + xml_escape_spec(rs.last().0)
            + "\" property=\""@ + xml_escape_spec(rs.last().1) + "\">"@ + xml_escape_spec(
            rs.last().2,
        ) + "</meta>\n"@
    }
}

/// The `dcterms:modified` meta added to EPUB3 output that has none.
pub open spec fn modified_text(m: crate::metadata::MetadataView, epub3: bool, timestamp: Seq<char>) -> Seq<char> {
    let has_modified = match crate::metadata::field_values(m, "OPF"@, "dcterms:modified"@) {
        Some(v) => v.len() > 0,
        None => false,
    };
    if epub3 && !has_modified {
        "    <meta property=\"dcterms:modified\">"@ + timestamp + "</meta>\n"@
    } else {
        Seq::empty()
    }
}

/// The view of an optional string.
pub open spec fn opt_string_view(o: Option<String>) -> Option<Seq<char>> {
    match o {
        Some(s) => Some(s@),
        None => None,
    }
}

/// ` name="value"` for an optional value, escaped.
pub open spec fn opt_attr(name: Seq<char>, v: Option<Seq<char>>) -> Seq<char> {
    match v {
        Some(x) => name + "=\""@ + xml_escape_spec(x) + "\""@,
        None => Seq::empty(),
    }
}

/// The manifest `<item>` line of an item: its id, href and media type, its
/// properties (or `cover-image` / `nav` made up for cover and Nav items),
/// media overlay and fallback.
pub open spec fn manifest_line(it: Arc<EpubItem>) -> Seq<char> {
    "    <item id=\""@ + xml_escape_spec(it.id@) + "\" href=\""@ + xml_escape_spec(it.href@)
        + "\" media-type=\""@ + xml_escape_spec(it.media_type@) + "\""@ + (match it.properties {
        Some(p) => " properties=\""@ + xml_escape_spec(p@) + "\""@,
        None => if it.item_type == ItemType::Cover {
            " properties=\"cover-image\""@
        } else if it.item_type == ItemType::Navigation && it.media_type@
            == "application/xhtml+xml"@ {
            " properties=\"nav\""@
        } else {
            Seq::empty()
        },
    }) + opt_attr(" media-overlay"@, opt_string_view(it.media_overlay)) + opt_attr(
        " fallback"@,
        opt_string_view(it.fallback),
    ) + "/>\n"@
}

/// The manifest lines of the first `n` items.
pub open spec fn manifest_lines(items: Seq<Arc<EpubItem>>, n: int) -> Seq<char>
    decreases n,
{
    if n <= 0 || n > items.len() {
        Seq::empty()
    } else {
        manifest_lines(items, n - 1) + manifest_line(items[n - 1])
    }
}

/// The `<itemref>` line of a spine entry.
pub open spec fn spine_line(e: SpineItem) -> Seq<char> {
    "    <itemref idref=\""@ + xml_escape_spec(e.idref@) + "\""@ + (if !e.linear {
        " linear=\"no\""@
    } else {
        Seq::empty()
    }) + opt_attr(" properties"@, opt_string_view(e.properties)) + "/>\n"@
}

/// The spine lines of the first `n` entries.
pub open spec fn spine_lines(spine: Seq<SpineItem>, n: int) -> Seq<char>
    decreases n,
{
    if n <= 0 || n > spine.len() {
        Seq::empty()
    } else {
        spine_lines(spine, n - 1) + spine_line(spine[n - 1])
    }
}

/// The index of the first NCX item among the first `n` items.
pub open spec fn first_ncx_from(items: Seq<Arc<EpubItem>>, k: int) -> Option<int>
    decreases items.len() - k,
{
    if k < 0 || k >= items.len() {
        None
    } else if items[k].media_type@ == "application/x-dtbncx+xml"@ {
        Some(k)
    } else {
        first_ncx_from(items, k + 1)
    }
}

/// The `toc` attribute of `<spine>`, naming the first NCX item.
pub open spec fn toc_attr(items: Seq<Arc<EpubItem>>, has_ncx: bool) -> Seq<char> {
    if has_ncx {
        match first_ncx_from(items, 0) {
            Some(k) => " toc=\""@ + xml_escape_spec(items[k].id@) + "\""@,
            None => Seq::empty(),
        }
    } else {
        Seq::empty()
    }
}

/// The manifest item made up for a Nav document the book lacks.
pub open spec fn synthetic_nav_line() -> Seq<char> {
    "    <item id=\"nav\" href=\"nav.xhtml\" media-type=\"application/xhtml+xml\" properties=\"nav\"/>\n"@
}

/// The package document of a book: its metadata part, then its manifest and
/// spine. `timestamp` is the modification time written when an EPUB3 book
/// records none.
pub open spec fn opf_document(book: EpubBook, has_ncx: bool, synth_nav: bool, timestamp: Seq<char>) -> Seq<char> {
    opf_metadata_part(book, timestamp) + opf_structure_part(book, has_ncx, synth_nav)
}

/// The id for `unique-identifier`.
fn identifier_id_exec(book: &EpubBook) -> (res: String)
    ensures
        res@ == identifier_id(book.metadata@),
{
    match book.metadata.get("DC", "identifier") {
        Some(items) => if items.len() > 0 {
            match items[0].attribute("id") {
                Some(id) => if is_safe_xml_name(id) {
                    id.to_owned()
                } else {
                    "BookId".to_owned()
                },
                None => "BookId".to_owned(),
            }
        } else {
            "BookId".to_owned()
        },
        None => "BookId".to_owned(),
    }
}

/// Writes the queued refinements.
fn write_refines(opf: &mut String, pending: &Vec<(String, String, String)>)
    ensures
        final(opf)@ == old(opf)@ + refines_text(refines_view(pending@)),
{
    let ghost o0 = opf@;
    let ghost rv = refines_view(pending@);
    let n = pending.len();
    let mut i: usize = 0;
    while i < n
        invariant
            i <= n,
            n == pending@.len(),
            rv == refines_view(pending@),
            opf@ == o0 + refines_text(rv.take(i as int)),
        decreases n - i,
    {
        proof {
            assert(rv.take(i + 1).drop_last() == rv.take(i as int));
            assert(rv.take(i + 1).last() == rv[i as int]);
        }
        let mut t = "    <meta refines=\"#".to_owned();
        xml_escape_into(&mut t, pending[i].0.as_str());
        push_str(&mut t, "\" property=\"");
        xml_escape_into(&mut t, pending[i].1.as_str());
        push_str(&mut t, "\">");
        xml_escape_into(&mut t, pending[i].2.as_str());
        push_str(&mut t, "</meta>\n");
        push_str(opf, t.as_str());
        i += 1;
    }
    proof {
        assert(rv.take(n as int) == rv);
    }
}

/// Appends ` name="value"` for an optional value.
fn push_opt_attr(buf: &mut String, name: &str, v: &Option<String>)
    ensures
        final(buf)@ == old(buf)@ + opt_attr(name@, opt_string_view(*v)),
{
    if let Some(x) = v {
        let mut t = name.to_owned();
        push_str(&mut t, "=\"");
        xml_escape_into(&mut t, x.as_str());
        push_str(&mut t, "\"");
        push_str(buf, t.as_str());
    }
}

/// Writes the manifest line of an item.
fn write_manifest_line(opf: &mut String, item: &EpubItem)
    ensures
        final(opf)@ == old(opf)@ + manifest_line(Arc::new(*item)),
{
    let mut t = "    <item id=\"".to_owned();
    xml_escape_into(&mut t, item.id.as_str());
    push_str(&mut t, "\" href=\"");
    xml_escape_into(&mut t, item.href.as_str());
    push_str(&mut t, "\" media-type=\"");
    xml_escape_into(&mut t, item.media_type.as_str());
    push_str(&mut t, "\"");
    match &item.properties {
        Some(p) => {
            push_str(&mut t, " properties=\"");
            xml_escape_into(&mut t, p.as_str());
            push_str(&mut t, "\"");
        },
        None => {
            if item.item_type == ItemType::Cover {
                push_str(&mut t, " properties=\"cover-image\"");
            } else if item.item_type == ItemType::Navigation && text::str_eq(
                item.media_type.as_str(),
                "application/xhtml+xml",
            ) {
                push_str(&mut t, " properties=\"nav\"");
            }
        },
    }
    push_opt_attr(&mut t, " media-overlay", &item.media_overlay);
    push_opt_attr(&mut t, " fallback", &item.fallback);
    push_str(&mut t, "/>\n");
    push_str(opf, t.as_str());
}

/// Writes the spine line of an entry.
fn write_spine_line(opf: &mut String, e: &SpineItem)
    ensures
        final(opf)@ == old(opf)@ + spine_line(*e),
{
    let mut t = "    <itemref idref=\"".to_owned();
    xml_escape_into(&mut t, e.idref.as_str());
    push_str(&mut t, "\"");
    if !e.linear {
        push_str(&mut t, " linear=\"no\"");
    }
    push_opt_attr(&mut t, " properties", &e.properties);
    push_str(&mut t, "/>\n");
    push_str(opf, t.as_str());
}

/// The metadata part of the package document: head, DC elements,
/// refinements, modification time and OPF metas.
pub open spec fn opf_metadata_part(book: EpubBook, timestamp: Seq<char>) -> Seq<char> {
    let epub3 = writes_epub3(book.version@);
    let m = book.metadata@;
    let ident = identifier_id(m);
    let (dc_text, refs) = dc_section(crate::metadata::lookup(m, "DC"@), ident, epub3);
    opf_head(epub3, ident) + dc_text + refines_text(refs) + modified_text(m, epub3, timestamp) + (
    match crate::metadata::lookup(m, "OPF"@) {
        Some(f) => opf_metas(f),
        None => Seq::empty(),
    })
}

/// The rest of the package document: manifest and spine.
pub open spec fn opf_structure_part(book: EpubBook, has_ncx: bool, synth_nav: bool) -> Seq<char> {
    "  </metadata>\n  <manifest>\n"@ + manifest_lines(book.items@, book.items@.len() as int) + (
    if synth_nav {
        synthetic_nav_line()
    } else {
        Seq::empty()
    }) + "  </manifest>\n  <spine"@ + toc_attr(book.items@, has_ncx) + ">\n"@ + spine_lines(
        book.spine@,
        book.spine@.len() as int,
    ) + "  </spine>\n</package>\n"@
}

/// Whether the version names EPUB3 output.
fn writes_epub3_exec(version: &str) -> (res: bool)
    ensures
        res == writes_epub3(version@),
{
    !text::str_starts_with(version, "2")
}

/// Whether the OPF metadata records a modification time.
fn has_modified(book: &EpubBook) -> (res: bool)
    ensures
        res == match crate::metadata::field_values(book.metadata@, "OPF"@, "dcterms:modified"@) {
            Some(v) => v.len() > 0,
            None => false,
        },
{
    match book.metadata.get("OPF", "dcterms:modified") {
        Some(v) => v.len() > 0,
        None => false,
    }
}

/// Writes the metadata part of the package document.
fn write_opf_metadata(book: &EpubBook, timestamp: &str) -> (res: String)
    ensures
        res@ == opf_metadata_part(*book, timestamp@),
{
    let epub3 = writes_epub3_exec(book.version.as_str());
    let ident = identifier_id_exec(book);
    let mut opf = "<?xml version=\"1.0\" encoding=\"UTF-8\"?>\n<package xmlns=\"http://www.idpf.org/2007/opf\" version=\"".to_owned();
    if epub3 {
        push_str(&mut opf, "3.0");
    } else {
        push_str(&mut opf, "2.0");
    }
    push_str(&mut opf, "\" unique-identifier=\"");
    xml_escape_into(&mut opf, ident.as_str());
    push_str(
        &mut opf,
        "\">\n  <metadata xmlns:dc=\"http://purl.org/dc/elements/1.1/\" xmlns:opf=\"http://www.idpf.org/2007/opf\">\n",
    );
    let ghost head = opf@;
    let mut pending: Vec<(String, String, String)> = Vec::new();
    let mut counter: u32 = 0;
    let mut dc_text = String::new();
    if let Some(dc) = book.metadata.namespace("DC") {
        write_dc_main(&mut dc_text, dc, "identifier", Some(ident.as_str()), epub3, &mut pending, &mut counter);
        write_dc_main(&mut dc_text, dc, "title", None, epub3, &mut pending, &mut counter);
        write_dc_main(&mut dc_text, dc, "language", None, epub3, &mut pending, &mut counter);
        write_dc_main(&mut dc_text, dc, "creator", None, epub3, &mut pending, &mut counter);
        write_dc_others(&mut dc_text, dc, epub3, &mut pending, &mut counter);
    }
    proof {
        assert(refines_view(Seq::<(String, String, String)>::empty()) =~= Seq::<Refine>::empty());
        assert((dc_text@, refines_view(pending@)) == dc_section(
            crate::metadata::lookup(book.metadata@, "DC"@),
            ident@,
            epub3,
        ));
    }
    push_str(&mut opf, dc_text.as_str());
    write_refines(&mut opf, &pending);
    if epub3 && !has_modified(book) {
        let mut t = "    <meta property=\"dcterms:modified\">".to_owned();
        push_str(&mut t, timestamp);
        push_str(&mut t, "</meta>\n");
        push_str(&mut opf, t.as_str());
    }
    let ghost before_metas = opf@;
    if let Some(o) = book.metadata.namespace("OPF") {
        write_opf_metas(&mut opf, o);
    }
    proof {
        assert(opf@ =~= opf_metadata_part(*book, timestamp@));
    }
    opf
}

/// Writes the manifest and spine part of the package document.
fn write_opf_structure(book: &EpubBook, has_ncx: bool, synth_nav: bool) -> (res: String)
    ensures
        res@ == opf_structure_part(*book, has_ncx, synth_nav),
{
    let mut opf = "  </metadata>\n  <manifest>\n".to_owned();
    let ghost o0 = opf@;
    let n = book.items.len();
    let mut i: usize = 0;
    while i < n
        invariant
            i <= n,
            n == book.items@.len(),
            opf@ == o0 + manifest_lines(book.items@, i as int),
        decreases n - i,
    {
        let item: &EpubItem = &book.items[i];
        write_manifest_line(&mut opf, item);
        i += 1;
    }
    if synth_nav {
        push_str(
            &mut opf,
            "    <item id=\"nav\" href=\"nav.xhtml\" media-type=\"application/xhtml+xml\" properties=\"nav\"/>\n",
        );
    }
    push_str(&mut opf, "  </manifest>\n  <spine");
    if has_ncx {
        let mut k: usize = 0;
        let mut found = false;
        while k < n && !found
            invariant
                k <= n,
                n == book.items@.len(),
                !found ==> first_ncx_from(book.items@, 0) == first_ncx_from(book.items@, k as int),
                found ==> first_ncx_from(book.items@, 0) == Some(k as int) && k < n,
            decreases n - k, if found { 0int } else { 1int },
        {
            if text::str_eq(book.items[k].media_type.as_str(), "application/x-dtbncx+xml") {
                found = true;
            } else {
                k += 1;
            }
        }
        if found {
            let mut t = " toc=\"".to_owned();
            xml_escape_into(&mut t, book.items[k].id.as_str());
            push_str(&mut t, "\"");
            push_str(&mut opf, t.as_str());
        }
    }
    push_str(&mut opf, ">\n");
    let ghost o1 = opf@;
    let m = book.spine.len();
    let mut j: usize = 0;
    while j < m
        invariant
            j <= m,
            m == book.spine@.len(),
            opf@ == o1 + spine_lines(book.spine@, j as int),
        decreases m - j,
    {
        write_spine_line(&mut opf, &book.spine[j]);
        j += 1;
    }
    push_str(&mut opf, "  </spine>\n</package>\n");
    proof {
        assert(opf@ =~= opf_structure_part(*book, has_ncx, synth_nav));
    }
    opf
}

/// Generate the OPF package document XML, with `timestamp` as the
/// modification time written when an EPUB3 book records none.
pub fn generate_opf_at(book: &EpubBook, has_ncx: bool, synth_nav: bool, timestamp: &str) -> (res: String)
    ensures
        res@ == opf_document(*book, has_ncx, synth_nav, timestamp@),
{
    let mut opf = write_opf_metadata(book, timestamp);
    let rest = write_opf_structure(book, has_ncx, synth_nav);
    push_str(&mut opf, rest.as_str());
    opf
}

/// Generate the OPF package document XML, stamped with the current time
/// where a modification time is needed. What the clock reads is not stated.
pub fn generate_opf(book: &EpubBook, has_ncx: bool, synth_nav: bool) -> (res: String)
    ensures
        exists|secs: u64| res@ == opf_document(*book, has_ncx, synth_nav, #[trigger] clock_timestamp(secs)),
{
    let ts = current_utc_timestamp();
    let res = generate_opf_at(book, has_ncx, synth_nav, ts.as_str());
    proof {
        let secs = choose|secs: u64| ts@ == #[trigger] clock_timestamp(secs);
        assert(res@ == opf_document(*book, has_ncx, synth_nav, clock_timestamp(secs)));
    }
    res
}

// ---------------------------------------------------------------------------
// Checks before writing
// ---------------------------------------------------------------------------

/// The error a book is refused with when it cannot be written: it lacks an
/// identifier, a title or a language, or its spine is empty (checked in
/// that order).
pub open spec fn write_refusal(book: EpubBook) -> Option<EpubError> {
    let m = book.metadata@;
    if first_value(m, "DC"@, "identifier"@) is None {
        Some(EpubError::MissingIdentifier)
    } else if first_value(m, "DC"@, "title"@) is None {
        Some(EpubError::MissingTitle)
    } else if first_value(m, "DC"@, "language"@) is None {
        Some(EpubError::MissingLanguage)
    } else if book.spine@.len() == 0 {
        Some(EpubError::EmptySpine)
    } else {
        None
    }
}

/// Validate that the book has all required fields for writing.
pub fn validate_for_write(book: &EpubBook) -> (res: Result<(), EpubError>)
    ensures
        match write_refusal(*book) {
            Some(e) => res == Err::<(), EpubError>(e),
            None => res is Ok,
        },
{
    if book.get_metadata_value("DC", "identifier").is_none() {
        return Err(EpubError::MissingIdentifier);
    }
    if book.get_metadata_value("DC", "title").is_none() {
        return Err(EpubError::MissingTitle);
    }
    if book.get_metadata_value("DC", "language").is_none() {
        return Err(EpubError::MissingLanguage);
    }
    if book.spine.len() == 0 {
        return Err(EpubError::EmptySpine);
    }
    Ok(())
}

// ---------------------------------------------------------------------------
// NCX and Nav documents of a book
// ---------------------------------------------------------------------------

/// The book's first title, or "Untitled".
pub open spec fn title_or_untitled(m: crate::metadata::MetadataView) -> Seq<char> {
    match first_value(m, "DC"@, "title"@) {
        Some(t) => t,
        None => "Untitled"@,
    }
}

/// Generate NCX document from the book's table of contents.
pub fn generate_ncx(book: &EpubBook, identifier: &str) -> (res: String)
    requires
        2 * toc_list_depth(book.toc@) + 2 < usize::MAX,
    ensures
        res@ == ncx_document(title_or_untitled(book.metadata@), identifier@, book.toc@),
{
    let title = match book.get_metadata_value("DC", "title") {
        Some(t) => t,
        None => "Untitled",
    };
    generate_ncx_document(title, identifier, &book.toc)
}

/// Generate EPUB3 Nav document from the book's table of contents.
pub fn generate_nav(book: &EpubBook) -> (res: String)
    requires
        2 * toc_list_depth(book.toc@) + 4 < usize::MAX,
    ensures
        res@ == nav_document(book.toc@),
{
    generate_nav_document(&book.toc)
}

// ---------------------------------------------------------------------------
// The archive
// ---------------------------------------------------------------------------

/// The container document that points at the package document.
pub const CONTAINER_XML: &'static str = "<?xml version=\"1.0\" encoding=\"UTF-8\"?>\n<container xmlns=\"urn:oasis:names:tc:opendocument:xmlns:container\" version=\"1.0\">\n  <rootfiles>\n    <rootfile full-path=\"EPUB/content.opf\" media-type=\"application/oebps-package+xml\"/>\n  </rootfiles>\n</container>";

/// Some item is an NCX document.
pub open spec fn has_ncx_item(items: Seq<Arc<EpubItem>>) -> bool {
    exists|i: int| 0 <= i < items.len() && (#[trigger] items[i]).media_type@ == "application/x-dtbncx+xml"@
}

/// Some item is an XHTML navigation document.
pub open spec fn has_nav_document(items: Seq<Arc<EpubItem>>) -> bool {
    exists|i: int|
        0 <= i < items.len() && (#[trigger] items[i]).item_type == ItemType::Navigation
            && items[i].media_type@ == "application/xhtml+xml"@
}

/// The book is written as EPUB3 and has no Nav document of its own, so one
/// is made from its table of contents.
pub open spec fn needs_synthetic_nav(book: EpubBook) -> bool {
    writes_epub3(book.version@) && !has_nav_document(book.items@)
}

/// The identifier written in a generated NCX: the first DC identifier.
pub open spec fn ncx_identifier(m: crate::metadata::MetadataView) -> Seq<char> {
    match first_value(m, "DC"@, "identifier"@) {
        Some(v) => v,
        None => Seq::empty(),
    }
}

/// The bytes written for an item: its content, or, when it has none, a
/// generated NCX or Nav document for an NCX or Nav item.
pub open spec fn item_bytes(book: EpubBook, it: EpubItem) -> Seq<u8> {
    let content = it.content_view();
    if content.len() == 0 && it.media_type@ == "application/x-dtbncx+xml"@ {
        encode_utf8(ncx_document(title_or_untitled(book.metadata@), ncx_identifier(book.metadata@), book.toc@))
    } else if content.len() == 0 && it.item_type == ItemType::Navigation && it.media_type@
        == "application/xhtml+xml"@ {
        encode_utf8(nav_document(book.toc@))
    } else {
        content
    }
}

/// The archive entries of the first `n` items, each at its href resolved
/// against the package directory.
pub open spec fn item_entries(book: EpubBook, n: int) -> Seq<ZipEntry>
    decreases n,
{
    if n <= 0 || n > book.items@.len() {
        Seq::empty()
    } else {
        item_entries(book, n - 1).push(
            (
                resolve_relative_spec("EPUB/"@, book.items@[n - 1].href@),
                false,
                item_bytes(book, *book.items@[n - 1]),
            ),
        )
    }
}

/// The first entries of the archive: the stored mimetype, the container and
/// the package document.
pub open spec fn head_entries(book: EpubBook, timestamp: Seq<char>) -> Seq<ZipEntry> {
    seq![
        ("mimetype"@, true, encode_utf8("application/epub+zip"@)),
        ("META-INF/container.xml"@, false, encode_utf8(CONTAINER_XML@)),
        (
            "EPUB/content.opf"@,
            false,
            encode_utf8(
                opf_document(book, has_ncx_item(book.items@), needs_synthetic_nav(book), timestamp),
            ),
        ),
    ]
}

/// The entries of the archive written for a book, in order: the stored
/// mimetype, the container, the package document, the items, and a Nav
/// document made up when the book needs one.
pub open spec fn epub_entries(book: EpubBook, timestamp: Seq<char>) -> Seq<ZipEntry> {
    let synth = needs_synthetic_nav(book);
    head_entries(book, timestamp) + item_entries(book, book.items@.len() as int) + if synth {
        seq![("EPUB/nav.xhtml"@, false, encode_utf8(nav_document(book.toc@)))]
    } else {
        Seq::empty()
    }
}

/// A UTF-8 encoding takes at most four bytes a character.
proof fn lemma_encode_utf8_len(s: Seq<char>)
    ensures
        encode_utf8(s).len() <= 4 * s.len(),
    decreases s.len(),
{
    if s.len() > 0 {
        lemma_encode_utf8_len(s.drop_first());
    }
}

/// Every item's path in the archive fits in a ZIP header.
pub open spec fn item_names_fit(book: EpubBook) -> bool {
    forall|i: int|
        0 <= i < book.items@.len() ==> name_fits(
            resolve_relative_spec("EPUB/"@, (#[trigger] book.items@[i]).href@),
        )
}

/// Entries that the zip writer is sure to write: their names are distinct
/// and each is smaller than `MAX_WRITTEN_ENTRY`.
pub open spec fn entries_writable(es: Seq<ZipEntry>) -> bool {
    distinct_names(es) && entries_fit(es)
}

/// The first entries of writable entries are writable too.
proof fn lemma_writable_prefix(es: Seq<ZipEntry>, m: int)
    requires
        entries_writable(es),
        0 <= m <= es.len(),
    ensures
        entries_writable(es.subrange(0, m)),
{
    let p = es.subrange(0, m);
    assert forall|a: int, b: int| 0 <= a < b < p.len() implies #[trigger] p[a].0 != #[trigger] p[b].0 by {
        assert(p[a] == es[a] && p[b] == es[b]);
    }
    assert forall|k: int| 0 <= k < p.len() implies (#[trigger] p[k]).2.len() < MAX_WRITTEN_ENTRY by {
        assert(p[k] == es[k]);
    }
}

/// An error that the zip writer gave: a `zip` error from starting or
/// finishing an entry, or an I/O error from writing its bytes.
pub open spec fn is_archive_error(e: EpubError) -> bool {
    e is Zip || e is Io
}

/// Starts an entry and writes its bytes, with the writer's errors as the
/// book's. It succeeds on an unused name when the entries so far and the
/// new one fit.
fn write_entry(zip: &mut ArchiveWriter, name: &str, stored: bool, bytes: &[u8]) -> (res: Result<(), EpubError>)
    requires
        name_fits(name@),
    ensures
        res is Ok ==> name_unused(zip_written(*old(zip)), name@) && zip_written(*final(zip))
            == zip_written(*old(zip)).push((name@, stored, bytes@)),
        res matches Err(e) ==> is_archive_error(e),
        name_unused(zip_written(*old(zip)), name@) && entries_fit(zip_written(*old(zip)))
            && bytes@.len() < MAX_WRITTEN_ENTRY ==> res is Ok,
{
    let started = if stored {
        zip_start_stored(zip, name)
    } else {
        zip_start_deflated(zip, name)
    };
    match started {
        Ok(()) => {},
        Err(e) => {
            return Err(EpubError::Zip(e));
        },
    }
    let ghost mid = zip_written(*zip);
    match zip_write_all(zip, bytes) {
        Ok(()) => {
            proof {
                if bytes@.len() == 0 {
                    assert(bytes@ =~= Seq::<u8>::empty());
                }
                assert(zip_written(*zip) =~= zip_written(*old(zip)).push((name@, stored, bytes@)));
            }
            Ok(())
        },
        Err(e) => Err(EpubError::Io(e)),
    }
}

/// Whether some item is an NCX document.
fn has_ncx_item_exec(items: &Vec<Arc<EpubItem>>) -> (res: bool)
    ensures
        res == has_ncx_item(items@),
{
    let n = items.len();
    let mut i: usize = 0;
    while i < n
        invariant
            i <= n,
            n == items@.len(),
            forall|k: int| 0 <= k < i ==> (#[trigger] items@[k]).media_type@ != "application/x-dtbncx+xml"@,
        decreases n - i,
    {
        if text::str_eq(items[i].media_type.as_str(), "application/x-dtbncx+xml") {
            return true;
        }
        i += 1;
    }
    false
}

/// Whether some item is an XHTML navigation document.
fn has_nav_document_exec(items: &Vec<Arc<EpubItem>>) -> (res: bool)
    ensures
        res == has_nav_document(items@),
{
    let n = items.len();
    let mut i: usize = 0;
    while i < n
        invariant
            i <= n,
            n == items@.len(),
            forall|k: int|
                0 <= k < i ==> !((#[trigger] items@[k]).item_type == ItemType::Navigation
                    && items@[k].media_type@ == "application/xhtml+xml"@),
        decreases n - i,
    {
        if items[i].item_type == ItemType::Navigation && text::str_eq(
            items[i].media_type.as_str(),
            "application/xhtml+xml",
        ) {
            return true;
        }
        i += 1;
    }
    false
}

/// The bytes written for one item.
fn item_bytes_exec(book: &EpubBook, item: &EpubItem, identifier: &str) -> (res: Vec<u8>)
    requires
        identifier@ == ncx_identifier(book.metadata@),
        2 * toc_list_depth(book.toc@) + 4 < usize::MAX,
    ensures
        res@ == item_bytes(*book, *item),
{
    let content = item.get_content();
    if content.len() == 0 && text::str_eq(item.media_type.as_str(), "application/x-dtbncx+xml") {
        generate_ncx(book, identifier).as_str().as_bytes_vec()
    } else if content.len() == 0 && item.item_type == ItemType::Navigation && text::str_eq(
        item.media_type.as_str(),
        "application/xhtml+xml",
    ) {
        generate_nav(book).as_str().as_bytes_vec()
    } else {
        content
    }
}

/// Item `i` of the first `n` has the entry at its resolved href with its bytes.
proof fn lemma_item_entries_index(book: EpubBook, n: int, i: int)
    requires
        0 <= i < n <= book.items@.len(),
    ensures
        item_entries(book, n).len() == n,
        item_entries(book, n)[i] == (
            resolve_relative_spec("EPUB/"@, book.items@[i].href@),
            false,
            item_bytes(book, *book.items@[i]),
        ),
    decreases n,
{
    if i < n - 1 {
        lemma_item_entries_index(book, n - 1, i);
    } else if n > 1 {
        lemma_item_entries_index(book, n - 1, 0);
    } else {
        assert(item_entries(book, 0).len() == 0);
    }
}

/// The entries of the first `i` items begin the entries of the first `n`.
proof fn lemma_item_entries_prefix(book: EpubBook, i: int, n: int)
    requires
        0 <= i <= n <= book.items@.len(),
    ensures
        item_entries(book, i).len() == i,
        item_entries(book, n).subrange(0, i) == item_entries(book, i),
{
    if i == 0 {
        assert(item_entries(book, n).subrange(0, 0) =~= item_entries(book, 0));
    } else {
        lemma_item_entries_index(book, i, 0);
        lemma_item_entries_index(book, n, 0);
        assert forall|k: int| 0 <= k < i implies #[trigger] item_entries(book, n)[k] == item_entries(book, i)[k] by {
            lemma_item_entries_index(book, i, k);
            lemma_item_entries_index(book, n, k);
        }
        assert(item_entries(book, n).subrange(0, i) =~= item_entries(book, i));
    }
}

/// Writes the items of a book, each at its href resolved against the
/// package directory. It succeeds when the entries written before and the
/// items' entries together are writable.
fn write_items(zip: &mut ArchiveWriter, book: &EpubBook) -> (res: Result<(), EpubError>)
    requires
        distinct_names(zip_written(*old(zip))),
        item_names_fit(*book),
        2 * toc_list_depth(book.toc@) + 4 < usize::MAX,
    ensures
        res is Ok ==> zip_written(*final(zip)) == zip_written(*old(zip)) + item_entries(
            *book,
            book.items@.len() as int,
        ),
        res is Ok ==> distinct_names(zip_written(*final(zip))),
        res matches Err(e) ==> is_archive_error(e),
        entries_writable(zip_written(*old(zip)) + item_entries(*book, book.items@.len() as int))
            ==> res is Ok,
{
    proof {
        reveal_strlit("");
    }
    let identifier = match book.get_metadata_value("DC", "identifier") {
        Some(v) => v,
        None => "",
    };
    let n = book.items.len();
    let ghost start = zip_written(*zip);
    let ghost full = start + item_entries(*book, n as int);
    let mut i: usize = 0;
    while i < n
        invariant
            i <= n,
            n == book.items@.len(),
            identifier@ == ncx_identifier(book.metadata@),
            2 * toc_list_depth(book.toc@) + 4 < usize::MAX,
            item_names_fit(*book),
            start == zip_written(*old(zip)),
            full == start + item_entries(*book, n as int),
            zip_written(*zip) == start + item_entries(*book, i as int),
            distinct_names(zip_written(*zip)),
        decreases n - i,
    {
        let item: &EpubItem = &book.items[i];
        let zip_path = resolve_relative("EPUB/", item.href.as_str());
        let bytes = item_bytes_exec(book, item, identifier);
        let ghost before = zip_written(*zip);
        proof {
            assert(name_fits(resolve_relative_spec("EPUB/"@, book.items@[i as int].href@)));
            lemma_item_entries_prefix(*book, i as int, n as int);
            lemma_item_entries_index(*book, n as int, i as int);
            if entries_writable(full) {
                let c = before.len() as int;
                assert(full[c] == (zip_path@, false, bytes@));
                assert forall|k: int| 0 <= k < c implies #[trigger] before[k] == full[k] by {
                    if k >= start.len() {
                        assert(before[k] == item_entries(*book, i as int)[k - start.len()]);
                        assert(full[k] == item_entries(*book, n as int)[k - start.len()]);
                        assert(item_entries(*book, n as int).subrange(0, i as int)[k - start.len()]
                            == item_entries(*book, n as int)[k - start.len()]);
                    }
                }
                assert forall|k: int| 0 <= k < c implies (#[trigger] before[k]).0 != zip_path@ by {
                    assert(before[k] == full[k]);
                    assert(full[k].0 != full[c].0);
                }
                assert forall|k: int| 0 <= k < c implies (#[trigger] before[k]).2.len() < MAX_WRITTEN_ENTRY by {
                    assert(before[k] == full[k]);
                }
                assert(full[c].2.len() < MAX_WRITTEN_ENTRY);
            }
        }
        match write_entry(zip, zip_path.as_str(), false, bytes.as_slice()) {
            Ok(()) => {},
            Err(e) => {
                return Err(e);
            },
        }
        proof {
            assert(zip_written(*zip) =~= start + item_entries(*book, i + 1));
            assert forall|a: int, b: int| 0 <= a < b < zip_written(*zip).len() implies #[trigger] zip_written(
                *zip,
            )[a].0 != #[trigger] zip_written(*zip)[b].0 by {
                if b == before.len() {
                    assert(zip_written(*zip)[a] == before[a]);
                }
            }
        }
        i += 1;
    }
    Ok(())
}

/// The archive `data` is the one written for `entries`, and each entry
/// reads back from it by its name.
pub open spec fn archive_of_entries(data: Seq<u8>, entries: Seq<ZipEntry>) -> bool {
    &&& data == zip_archive_of(entries)
    &&& distinct_names(entries)
    &&& reads_back(data, entries)
}

/// The fixed names of the archive fit in a ZIP header.
proof fn lemma_fixed_names_fit()
    ensures
        name_fits("mimetype"@),
        name_fits("META-INF/container.xml"@),
        name_fits("EPUB/content.opf"@),
        name_fits("EPUB/nav.xhtml"@),
{
    reveal_strlit("mimetype");
    reveal_strlit("META-INF/container.xml");
    reveal_strlit("EPUB/content.opf");
    reveal_strlit("EPUB/nav.xhtml");
    lemma_encode_utf8_len("mimetype"@);
    lemma_encode_utf8_len("META-INF/container.xml"@);
    lemma_encode_utf8_len("EPUB/content.opf"@);
    lemma_encode_utf8_len("EPUB/nav.xhtml"@);
}

/// Writes the mimetype, the container and the package document. It
/// succeeds when these entries fit.
#[verifier::rlimit(100)]
fn write_head(zip: &mut ArchiveWriter, book: &EpubBook, timestamp: &str) -> (res: Result<(), EpubError>)
    requires
        zip_written(*old(zip)) == Seq::<ZipEntry>::empty(),
    ensures
        res is Ok ==> zip_written(*final(zip)) == head_entries(*book, timestamp@),
        res is Ok ==> distinct_names(zip_written(*final(zip))),
        res matches Err(e) ==> is_archive_error(e),
        entries_fit(head_entries(*book, timestamp@)) ==> res is Ok,
{
    let ghost h = head_entries(*book, timestamp@);
    proof {
        lemma_fixed_names_fit();
        reveal_strlit("mimetype");
        reveal_strlit("META-INF/container.xml");
        reveal_strlit("EPUB/content.opf");
        assert(h[0] == ("mimetype"@, true, encode_utf8("application/epub+zip"@)));
        assert(h[1] == ("META-INF/container.xml"@, false, encode_utf8(CONTAINER_XML@)));
    }
    let mimetype = "application/epub+zip".as_bytes_vec();
    match write_entry(zip, "mimetype", true, mimetype.as_slice()) {
        Ok(()) => {},
        Err(e) => {
            return Err(e);
        },
    }
    let ghost w1 = zip_written(*zip);
    let container = CONTAINER_XML.as_bytes_vec();
    proof {
        if entries_fit(h) {
            assert(w1[0] == h[0]);
            assert(h[1].2.len() < MAX_WRITTEN_ENTRY);
        }
        assert("mimetype"@ != "META-INF/container.xml"@) by {
            assert("mimetype"@.len() != "META-INF/container.xml"@.len());
        }
    }
    match write_entry(zip, "META-INF/container.xml", false, container.as_slice()) {
        Ok(()) => {},
        Err(e) => {
            return Err(e);
        },
    }
    let ghost w2 = zip_written(*zip);
    let has_ncx = has_ncx_item_exec(&book.items);
    let synth_nav = writes_epub3_exec(book.version.as_str()) && !has_nav_document_exec(&book.items);
    let opf = generate_opf_at(book, has_ncx, synth_nav, timestamp);
    let opf_bytes = opf.as_str().as_bytes_vec();
    proof {
        assert(h[2] == ("EPUB/content.opf"@, false, opf_bytes@));
        if entries_fit(h) {
            assert(w2[0] == h[0] && w2[1] == h[1]);
            assert(h[2].2.len() < MAX_WRITTEN_ENTRY);
        }
        assert("EPUB/content.opf"@ != "mimetype"@) by {
            assert("EPUB/content.opf"@.len() != "mimetype"@.len());
        }
        assert("EPUB/content.opf"@ != "META-INF/container.xml"@) by {
            assert("EPUB/content.opf"@.len() != "META-INF/container.xml"@.len());
        }
    }
    match write_entry(zip, "EPUB/content.opf", false, opf_bytes.as_slice()) {
        Ok(()) => {},
        Err(e) => {
            return Err(e);
        },
    }
    proof {
        let w = zip_written(*zip);
        assert(w =~= h);
        assert(distinct_names(w)) by {
            assert(w.len() == 3);
        }
    }
    Ok(())
}

/// Writes the archive of a book that can be written. It succeeds when the
/// book's entries are writable.
#[verifier::rlimit(100)]
fn write_archive(book: &EpubBook, timestamp: &str) -> (res: Result<Vec<u8>, EpubError>)
    requires
        item_names_fit(*book),
        2 * toc_list_depth(book.toc@) + 4 < usize::MAX,
    ensures
        res matches Ok(b) ==> archive_of_entries(b@, epub_entries(*book, timestamp@)),
        res matches Err(e) ==> is_archive_error(e),
        entries_writable(epub_entries(*book, timestamp@)) ==> res is Ok,
{
    let ghost full = epub_entries(*book, timestamp@);
    let ghost h = head_entries(*book, timestamp@);
    let ghost hi = h + item_entries(*book, book.items@.len() as int);
    proof {
        assert(h.len() == 3);
        assert(hi =~= full.subrange(0, hi.len() as int));
        if entries_writable(full) {
            lemma_writable_prefix(full, hi.len() as int);
            lemma_writable_prefix(hi, 3);
            assert(hi.subrange(0, 3) =~= h);
        }
    }
    let mut zip = zip_writer_new();
    match write_head(&mut zip, book, timestamp) {
        Ok(()) => {},
        Err(e) => {
            return Err(e);
        },
    }
    match write_items(&mut zip, book) {
        Ok(()) => {},
        Err(e) => {
            return Err(e);
        },
    }
    let ghost with_items = zip_written(zip);
    let synth_nav = writes_epub3_exec(book.version.as_str()) && !has_nav_document_exec(&book.items);
    if synth_nav {
        let nav = generate_nav(book);
        let nav_bytes = nav.as_str().as_bytes_vec();
        proof {
            lemma_fixed_names_fit();
            let c = with_items.len() as int;
            assert(with_items == hi);
            assert(full[c] == ("EPUB/nav.xhtml"@, false, nav_bytes@));
            if entries_writable(full) {
                assert forall|k: int| 0 <= k < c implies (#[trigger] with_items[k]).0 != "EPUB/nav.xhtml"@ by {
                    assert(with_items[k] == full[k]);
                    assert(full[k].0 != full[c].0);
                }
                assert(full[c].2.len() < MAX_WRITTEN_ENTRY);
            }
        }
        match write_entry(&mut zip, "EPUB/nav.xhtml", false, nav_bytes.as_slice()) {
            Ok(()) => {},
            Err(e) => {
                return Err(e);
            },
        }
        proof {
            let w = zip_written(zip);
            assert forall|a: int, b: int| 0 <= a < b < w.len() implies #[trigger] w[a].0 != #[trigger] w[b].0 by {
                if b == with_items.len() {
                    assert(w[a] == with_items[a]);
                }
            }
        }
    }
    proof {
        assert(zip_written(zip) =~= full);
    }
    match zip_finish(zip) {
        Ok(b) => Ok(b),
        Err(e) => Err(EpubError::Zip(e)),
    }
}

/// The archive written for a book can be written: its names are distinct
/// and every entry is smaller than `MAX_WRITTEN_ENTRY`.
pub open spec fn book_writable(book: EpubBook, timestamp: Seq<char>) -> bool {
    entries_writable(epub_entries(book, timestamp))
}

/// Writes the archive of a book, with `timestamp` as the modification time
/// written when an EPUB3 book records none. A book that is not refused is
/// written whenever its entries are writable; the archive's first entry is
/// then the stored `mimetype`.
#[verifier::rlimit(100)]
pub fn write_epub_to_bytes_at(book: &EpubBook, timestamp: &str) -> (res: Result<Vec<u8>, EpubError>)
    requires
        item_names_fit(*book),
        2 * toc_list_depth(book.toc@) + 4 < usize::MAX,
    ensures
        write_refusal(*book) matches Some(e) ==> res == Err::<Vec<u8>, EpubError>(e),
        res matches Ok(b) ==> write_refusal(*book) is None && archive_of_entries(
            b@,
            epub_entries(*book, timestamp@),
        ),
        res is Ok ==> epub_entries(*book, timestamp@)[0] == (
            "mimetype"@,
            true,
            encode_utf8("application/epub+zip"@),
        ),
        write_refusal(*book) is None ==> (res matches Err(e) ==> is_archive_error(e)),
        write_refusal(*book) is None && book_writable(*book, timestamp@) ==> res is Ok,
{
    match validate_for_write(book) {
        Ok(()) => {},
        Err(e) => {
            return Err(e);
        },
    }
    let res = write_archive(book, timestamp);
    proof {
        assert(epub_entries(*book, timestamp@)[0] == head_entries(*book, timestamp@)[0]);
    }
    res
}

/// The archive written for a book starts with the `mimetype` entry, stored
/// without compression, and reading the archive back gives the mimetype,
/// the container and the package document that were written.
#[verifier::rlimit(40)]
pub proof fn lemma_written_archive_reads_back(data: Seq<u8>, book: EpubBook, timestamp: Seq<char>)
    requires
        archive_of_entries(data, epub_entries(book, timestamp)),
    ensures
        epub_entries(book, timestamp)[0] == ("mimetype"@, true, encode_utf8("application/epub+zip"@)),
        crate::archive::zip_entry_bytes(data, "mimetype"@) == Some(encode_utf8("application/epub+zip"@)),
        crate::archive::zip_entry_bytes(data, "META-INF/container.xml"@) == Some(encode_utf8(CONTAINER_XML@)),
        crate::archive::zip_entry_bytes(data, "EPUB/content.opf"@) == Some(
            encode_utf8(
                opf_document(book, has_ncx_item(book.items@), needs_synthetic_nav(book), timestamp),
            ),
        ),
{
    let es = epub_entries(book, timestamp);
    let h = head_entries(book, timestamp);
    assert(h.len() == 3);
    assert(es[0] == h[0] && es[1] == h[1] && es[2] == h[2]);
    assert(zip_entry_bytes_of(data, es, 0));
    assert(zip_entry_bytes_of(data, es, 1));
    assert(zip_entry_bytes_of(data, es, 2));
}

/// Entry `i` reads back from the archive as its bytes.
pub open spec fn zip_entry_bytes_of(data: Seq<u8>, es: Seq<ZipEntry>, i: int) -> bool {
    crate::archive::zip_entry_bytes(data, es[i].0) == Some(es[i].2)
}

/// A book written as EPUB3 without a Nav document of its own gets the Nav
/// document generated from its table of contents at `EPUB/nav.xhtml`, and
/// reading the archive back finds it there.
#[verifier::rlimit(80)]
pub proof fn lemma_synthetic_nav_written(data: Seq<u8>, book: EpubBook, timestamp: Seq<char>)
    requires
        archive_of_entries(data, epub_entries(book, timestamp)),
        needs_synthetic_nav(book),
    ensures
        epub_entries(book, timestamp).last() == ("EPUB/nav.xhtml"@, false, encode_utf8(nav_document(book.toc@))),
        crate::archive::zip_entry_bytes(data, "EPUB/nav.xhtml"@) == Some(encode_utf8(nav_document(book.toc@))),
{
    let es = epub_entries(book, timestamp);
    let k = es.len() - 1;
    assert(es[k] == ("EPUB/nav.xhtml"@, false, encode_utf8(nav_document(book.toc@))));
    assert(zip_entry_bytes_of(data, es, k));
}

/// Reading the archive written for a book finds each item where the writer
/// put it, at its href resolved against the package directory, holding the
/// bytes written for it, with their size recorded.
#[verifier::rlimit(80)]
pub proof fn lemma_written_entries_read_back(data: Seq<u8>, book: EpubBook, timestamp: Seq<char>, i: int)
    requires
        archive_of_entries(data, epub_entries(book, timestamp)),
        0 <= i < book.items@.len(),
    ensures
        crate::archive::zip_entry_bytes(data, resolve_relative_spec("EPUB/"@, book.items@[i].href@))
            == Some(item_bytes(book, *book.items@[i])),
        crate::archive::zip_entry_size(data, resolve_relative_spec("EPUB/"@, book.items@[i].href@))
            == Some(item_bytes(book, *book.items@[i]).len() as u64),
{
    let es = epub_entries(book, timestamp);
    let n = book.items@.len() as int;
    lemma_item_entries_index(book, n, i);
    let h = head_entries(book, timestamp);
    assert(h.len() == 3);
    assert(es[3 + i] == item_entries(book, n)[i]);
    assert(zip_entry_bytes_of(data, es, 3 + i));
}

/// Write an EpubBook to bytes in memory. The package document is stamped
/// with the current time where a modification time is needed; what the
/// clock reads is not stated. For that time the result is as
/// `write_epub_to_bytes_at` states.
pub fn write_epub_to_bytes(book: &EpubBook) -> (res: Result<Vec<u8>, EpubError>)
    requires
        item_names_fit(*book),
        2 * toc_list_depth(book.toc@) + 4 < usize::MAX,
    ensures
        write_refusal(*book) matches Some(e) ==> res == Err::<Vec<u8>, EpubError>(e),
        exists|secs: u64| written_as(*book, #[trigger] clock_timestamp(secs), res),
{
    let ts = current_utc_timestamp();
    let res = write_epub_to_bytes_at(book, ts.as_str());
    proof {
        let secs = choose|secs: u64| ts@ == #[trigger] clock_timestamp(secs);
        assert(written_as(*book, clock_timestamp(secs), res));
    }
    res
}

/// What writing a book with the modification time `timestamp` gives: the
/// refusal, if it is refused; else either the archive of its entries,
/// first the stored `mimetype`, or an error of the zip writer, which does
/// not come when the entries are writable.
pub open spec fn written_as(book: EpubBook, timestamp: Seq<char>, res: Result<Vec<u8>, EpubError>) -> bool {
    &&& write_refusal(book) matches Some(e) ==> res == Err::<Vec<u8>, EpubError>(e)
    &&& res matches Ok(b) ==> write_refusal(book) is None && archive_of_entries(
        b@,
        epub_entries(book, timestamp),
    )
    &&& res is Ok ==> epub_entries(book, timestamp)[0] == (
        "mimetype"@,
        true,
        encode_utf8("application/epub+zip"@),
    )
    &&& write_refusal(book) is None ==> (res matches Err(e) ==> is_archive_error(e))
    &&& write_refusal(book) is None && book_writable(book, timestamp) ==> res is Ok
}


/// `p` begins `s`.
pub open spec fn text_prefix(p: Seq<char>, s: Seq<char>) -> bool {
    p.len() <= s.len() && s.subrange(0, p.len() as int) == p
}

proof fn lemma_text_prefix_trans(a: Seq<char>, b: Seq<char>, c: Seq<char>)
    requires
        text_prefix(a, b),
        text_prefix(b, c),
    ensures
        text_prefix(a, c),
{
    assert(c.subrange(0, a.len() as int) =~= b.subrange(0, a.len() as int));
}

proof fn lemma_text_prefix_append(a: Seq<char>, b: Seq<char>)
    ensures
        text_prefix(a, a + b),
{
    assert((a + b).subrange(0, a.len() as int) =~= a);
}

/// The DC elements of a list only add to the text before them.
proof fn lemma_dc_list_extends(
    tag: Seq<char>,
    items: Seq<crate::metadata::ItemView>,
    ident: Option<Seq<char>>,
    epub3: bool,
    st: DcState,
)
    ensures
        text_prefix(st.0, dc_list(tag, items, ident, epub3, st).0),
    decreases items.len(),
{
    if items.len() == 0 {
        lemma_text_prefix_append(st.0, Seq::empty());
        assert(st.0 + Seq::<char>::empty() =~= st.0);
    } else {
        let st1 = dc_list(tag, items.drop_last(), ident, epub3, st);
        lemma_dc_list_extends(tag, items.drop_last(), ident, epub3, st);
        let ov = match ident {
            Some(id) => if items.len() == 1 {
                Some(id)
            } else {
                crate::metadata::lookup(items.last().1, "id"@)
            },
            None => None,
        };
        let (t, r, c) = dc_element(tag, items.last(), ov, epub3, st1.2);
        lemma_text_prefix_append(st1.0, t);
        lemma_text_prefix_trans(st.0, st1.0, st1.0 + t);
    }
}

/// The DC elements of a list begin with the element of its first value,
/// which carries the given id.
proof fn lemma_dc_list_first(
    tag: Seq<char>,
    items: Seq<crate::metadata::ItemView>,
    id: Seq<char>,
    epub3: bool,
    st: DcState,
)
    requires
        items.len() > 0,
    ensures
        text_prefix(
            st.0 + dc_element(tag, items[0], Some(id), epub3, st.2).0,
            dc_list(tag, items, Some(id), epub3, st).0,
        ),
    decreases items.len(),
{
    if items.len() == 1 {
        assert(items.drop_last().len() == 0);
        assert(items.last() == items[0]);
        assert(dc_list(tag, items.drop_last(), Some(id), epub3, st) == st);
        let t = dc_element(tag, items[0], Some(id), epub3, st.2).0;
        assert(dc_list(tag, items, Some(id), epub3, st).0 == st.0 + t);
        assert((st.0 + t).subrange(0, (st.0 + t).len() as int) =~= st.0 + t);
    } else {
        let d = items.drop_last();
        assert(d[0] == items[0]);
        lemma_dc_list_first(tag, d, id, epub3, st);
        let st1 = dc_list(tag, d, Some(id), epub3, st);
        let ov = crate::metadata::lookup(items.last().1, "id"@);
        let t = dc_element(tag, items.last(), ov, epub3, st1.2).0;
        lemma_text_prefix_append(st1.0, t);
        lemma_text_prefix_trans(
            st.0 + dc_element(tag, items[0], Some(id), epub3, st.2).0,
            st1.0,
            st1.0 + t,
        );
    }
}

/// The other DC fields only add to the text before them.
proof fn lemma_dc_others_extends(fields: crate::metadata::FieldsView, epub3: bool, st: DcState)
    ensures
        text_prefix(st.0, dc_others(fields, epub3, st).0),
    decreases fields.len(),
{
    if fields.len() == 0 {
        assert(st.0.subrange(0, st.0.len() as int) =~= st.0);
    } else {
        let st1 = dc_others(fields.drop_last(), epub3, st);
        lemma_dc_others_extends(fields.drop_last(), epub3, st);
        let (name, items) = fields.last();
        if !(main_dc_field(name) || !safe_name(name)) {
            lemma_dc_list_extends(name, items, None, epub3, st1);
            lemma_text_prefix_trans(st.0, st1.0, dc_list(name, items, None, epub3, st1).0);
        }
    }
}

proof fn lemma_dc_main_extends(
    fields: crate::metadata::FieldsView,
    name: Seq<char>,
    ident: Option<Seq<char>>,
    epub3: bool,
    st: DcState,
)
    ensures
        text_prefix(st.0, dc_main(fields, name, ident, epub3, st).0),
{
    match crate::metadata::lookup(fields, name) {
        Some(items) => lemma_dc_list_extends(name, items, ident, epub3, st),
        None => {
            assert(st.0.subrange(0, st.0.len() as int) =~= st.0);
        },
    }
}

/// The package names its unique identifier `identifier_id`, and the first
/// DC identifier written, right after the package head, carries that id:
/// the package's unique-identifier resolves to the book's first
/// identifier.
#[verifier::rlimit(100)]
pub proof fn lemma_package_identifier(book: EpubBook, timestamp: Seq<char>)
    requires
        crate::metadata::field_values(book.metadata@, "DC"@, "identifier"@) matches Some(items)
            && items.len() > 0,
    ensures
        ({
            let m = book.metadata@;
            let epub3 = writes_epub3(book.version@);
            let u = identifier_id(m);
            let first = crate::metadata::field_values(m, "DC"@, "identifier"@)->0[0];
            &&& text_prefix(
                opf_head(epub3, u) + dc_element("identifier"@, first, Some(u), epub3, 0).0,
                opf_metadata_part(book, timestamp),
            )
            &&& forall|has_ncx: bool, synth_nav: bool| text_prefix(
                opf_head(epub3, u) + dc_element("identifier"@, first, Some(u), epub3, 0).0,
                #[trigger] opf_document(book, has_ncx, synth_nav, timestamp),
            )
            &&& dc_resolved_id(first, Some(u), epub3, 0).0 == Some(u)
            &&& u == (match crate::metadata::lookup(first.1, "id"@) {
                Some(id) => if safe_name(id) {
                    id
                } else {
                    "BookId"@
                },
                None => "BookId"@,
            })
        }),
{
    let m = book.metadata@;
    let epub3 = writes_epub3(book.version@);
    let u = identifier_id(m);
    let f = crate::metadata::lookup(m, "DC"@)->0;
    let items = crate::metadata::lookup(f, "identifier"@)->0;
    let st0: DcState = (Seq::empty(), Seq::empty(), 0u32);
    let st1 = dc_main(f, "identifier"@, Some(u), epub3, st0);
    let st2 = dc_main(f, "title"@, None, epub3, st1);
    let st3 = dc_main(f, "language"@, None, epub3, st2);
    let st4 = dc_main(f, "creator"@, None, epub3, st3);
    let st5 = dc_others(f, epub3, st4);
    let first_el = dc_element("identifier"@, items[0], Some(u), epub3, 0).0;
    lemma_dc_list_first("identifier"@, items, u, epub3, st0);
    assert(Seq::<char>::empty() + first_el =~= first_el);
    lemma_dc_main_extends(f, "title"@, None, epub3, st1);
    lemma_dc_main_extends(f, "language"@, None, epub3, st2);
    lemma_dc_main_extends(f, "creator"@, None, epub3, st3);
    lemma_dc_others_extends(f, epub3, st4);
    lemma_text_prefix_trans(first_el, st1.0, st2.0);
    lemma_text_prefix_trans(first_el, st2.0, st3.0);
    lemma_text_prefix_trans(first_el, st3.0, st4.0);
    lemma_text_prefix_trans(first_el, st4.0, st5.0);
    let (dc_text, refs) = dc_section(crate::metadata::lookup(m, "DC"@), u, epub3);
    assert(dc_text == st5.0);
    let head = opf_head(epub3, u);
    let whole = opf_metadata_part(book, timestamp);
    let rest = refines_text(refs) + modified_text(m, epub3, timestamp) + (match crate::metadata::lookup(m, "OPF"@) {
        Some(g) => opf_metas(g),
        None => Seq::empty(),
    });
    assert(whole == head + dc_text + rest);
    assert(whole.subrange(0, (head + first_el).len() as int) =~= head + first_el) by {
        assert(dc_text.subrange(0, first_el.len() as int) == first_el);
        assert forall|k: int| 0 <= k < (head + first_el).len() implies #[trigger] whole[k] == (head
            + first_el)[k] by {
            if k >= head.len() {
                assert(whole[k] == dc_text[k - head.len()]);
                assert(dc_text[k - head.len()] == dc_text.subrange(0, first_el.len() as int)[k
                    - head.len()]);
            }
        }
    }
    assert forall|has_ncx: bool, synth_nav: bool| text_prefix(
        head + first_el,
        #[trigger] opf_document(book, has_ncx, synth_nav, timestamp),
    ) by {
        lemma_text_prefix_append(whole, opf_structure_part(book, has_ncx, synth_nav));
        lemma_text_prefix_trans(head + first_el, whole, opf_document(book, has_ncx, synth_nav, timestamp));
    }
}

/// `p` occurs somewhere in `s`.
pub open spec fn occurs(s: Seq<char>, p: Seq<char>) -> bool {
    exists|i: int| 0 <= i && i + p.len() <= s.len() && #[trigger] s.subrange(i, i + p.len()) == p
}

proof fn lemma_occurs_start(p: Seq<char>, r: Seq<char>)
    ensures
        occurs(p + r, p),
{
    let i = 0int;
    assert((p + r).subrange(i, i + p.len()) =~= p);
}

proof fn lemma_occurs_within(a: Seq<char>, s: Seq<char>, b: Seq<char>, p: Seq<char>)
    requires
        occurs(s, p),
    ensures
        occurs(a + s + b, p),
{
    let i = choose|i: int| 0 <= i && i + p.len() <= s.len() && #[trigger] s.subrange(i, i + p.len()) == p;
    let t = a + s + b;
    let j = a.len() + i;
    assert(t.subrange(j, j + p.len()) =~= s.subrange(i, i + p.len()));
}

/// How the package document writes a spine entry: `<itemref idref="...">`,
/// then ` linear="no"` exactly when the entry is not linear, then its
/// properties or the end of the element.
pub open spec fn itemref_start(e: SpineItem) -> Seq<char> {
    "    <itemref idref=\""@ + xml_escape_spec(e.idref@) + "\""@ + (if e.linear {
        Seq::empty()
    } else {
        " linear=\"no\""@
    }) + (if e.properties is Some {
        " properties=\""@
    } else {
        "/>"@
    })
}

proof fn lemma_spine_line_starts(e: SpineItem)
    ensures
        occurs(spine_line(e), itemref_start(e)),
{
    reveal_strlit(" properties=\"");
    reveal_strlit(" properties");
    reveal_strlit("=\"");
    reveal_strlit("/>");
    reveal_strlit("/>\n");
    reveal_strlit("\"");
    let head = "    <itemref idref=\""@ + xml_escape_spec(e.idref@) + "\""@ + (if !e.linear {
        " linear=\"no\""@
    } else {
        Seq::empty()
    });
    assert(head == "    <itemref idref=\""@ + xml_escape_spec(e.idref@) + "\""@ + (if e.linear {
        Seq::empty()
    } else {
        " linear=\"no\""@
    }));
    match opt_string_view(e.properties) {
        Some(x) => {
            let rest = xml_escape_spec(x) + "\""@ + "/>\n"@;
            assert(spine_line(e) =~= itemref_start(e) + rest);
            lemma_occurs_start(itemref_start(e), rest);
        },
        None => {
            assert(e.properties is None);
            let rest = seq!['\n'];
            assert(spine_line(e) =~= itemref_start(e) + rest);
            lemma_occurs_start(itemref_start(e), rest);
        },
    }
}

proof fn lemma_spine_lines_hold(spine: Seq<SpineItem>, n: int, k: int)
    requires
        0 <= k < n <= spine.len(),
    ensures
        occurs(spine_lines(spine, n), itemref_start(spine[k])),
    decreases n,
{
    if k == n - 1 {
        lemma_spine_line_starts(spine[k]);
        lemma_occurs_within(spine_lines(spine, n - 1), spine_line(spine[k]), Seq::empty(), itemref_start(spine[k]));
        assert(spine_lines(spine, n - 1) + spine_line(spine[k]) + Seq::<char>::empty() =~= spine_lines(spine, n));
    } else {
        lemma_spine_lines_hold(spine, n - 1, k);
        lemma_occurs_within(Seq::empty(), spine_lines(spine, n - 1), spine_line(spine[n - 1]), itemref_start(spine[k]));
        assert(Seq::<char>::empty() + spine_lines(spine, n - 1) + spine_line(spine[n - 1]) =~= spine_lines(spine, n));
    }
}

/// A text that `s` holds, it holds with each of its starts.
proof fn lemma_occurs_start_of(s: Seq<char>, st: Seq<char>, m: int)
    requires
        occurs(s, st),
        0 <= m <= st.len(),
    ensures
        occurs(s, st.subrange(0, m)),
{
    let i = choose|i: int| 0 <= i && i + st.len() <= s.len() && #[trigger] s.subrange(i, i + st.len()) == st;
    let p = st.subrange(0, m);
    assert(s.subrange(i, i + p.len()) =~= p);
}

/// A non-linear entry's itemref starts with its idref and `linear="no"`.
proof fn lemma_nonlinear_itemref(e: SpineItem)
    requires
        !e.linear,
    ensures
        ("    <itemref idref=\""@ + xml_escape_spec(e.idref@) + "\" linear=\"no\""@).len() <= itemref_start(e).len(),
        itemref_start(e).subrange(
            0,
            ("    <itemref idref=\""@ + xml_escape_spec(e.idref@) + "\" linear=\"no\""@).len() as int,
        ) == "    <itemref idref=\""@ + xml_escape_spec(e.idref@) + "\" linear=\"no\""@,
{
    reveal_strlit("\"");
    reveal_strlit(" linear=\"no\"");
    reveal_strlit("\" linear=\"no\"");
    let p = "    <itemref idref=\""@ + xml_escape_spec(e.idref@) + "\" linear=\"no\""@;
    let q = "    <itemref idref=\""@ + xml_escape_spec(e.idref@) + "\""@ + " linear=\"no\""@;
    assert(p =~= q);
    let tail = if e.properties is Some {
        " properties=\""@
    } else {
        "/>"@
    };
    assert(itemref_start(e) == q + tail);
    assert((q + tail).subrange(0, q.len() as int) =~= q);
}

/// Every spine entry is written in the package document with its idref,
/// and with `linear="no"` exactly when it is not linear: a non-linear entry
/// carries `linear="no"`, and a linear one goes straight on to its
/// properties or the end of the element.
#[verifier::rlimit(100)]
pub proof fn lemma_spine_entries_written(
    book: EpubBook,
    has_ncx: bool,
    synth_nav: bool,
    timestamp: Seq<char>,
    k: int,
)
    requires
        0 <= k < book.spine@.len(),
    ensures
        occurs(opf_document(book, has_ncx, synth_nav, timestamp), itemref_start(book.spine@[k])),
        !book.spine@[k].linear ==> occurs(
            opf_document(book, has_ncx, synth_nav, timestamp),
            "    <itemref idref=\""@ + xml_escape_spec(book.spine@[k].idref@) + "\" linear=\"no\""@,
        ),
{
    let spine = book.spine@;
    let e = spine[k];
    lemma_spine_lines_hold(spine, spine.len() as int, k);
    let before = "  </metadata>\n  <manifest>\n"@ + manifest_lines(book.items@, book.items@.len() as int) + (
    if synth_nav {
        synthetic_nav_line()
    } else {
        Seq::empty()
    }) + "  </manifest>\n  <spine"@ + toc_attr(book.items@, has_ncx) + ">\n"@;
    let after = "  </spine>\n</package>\n"@;
    let sl = spine_lines(spine, spine.len() as int);
    assert(opf_structure_part(book, has_ncx, synth_nav) == before + sl + after);
    let m = opf_metadata_part(book, timestamp);
    lemma_occurs_within(m + before, sl, after, itemref_start(e));
    let doc = opf_document(book, has_ncx, synth_nav, timestamp);
    assert(doc =~= m + before + sl + after);
    if !e.linear {
        lemma_nonlinear_itemref(e);
        let p = "    <itemref idref=\""@ + xml_escape_spec(e.idref@) + "\" linear=\"no\""@;
        lemma_occurs_start_of(doc, itemref_start(e), p.len() as int);
    }
}
} // verus!
