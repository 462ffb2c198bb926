//! What the command-line tool reports about books, as text.
use vstd::prelude::*;
use crate::item_type::ItemType;
use crate::metadata::{field_values, first_value, items_view};
use crate::model::EpubBook;
use crate::text;
use crate::text::{chars_of, push_char, push_str, str_eq};
use crate::writer::{decimal, push_decimal};

verus! {

/// Whether an item type passes an extraction filter: `images` takes images,
/// vector images and covers, `documents` documents, `styles` style sheets;
/// `all` and any other filter take everything.
pub open spec fn filter_takes(filter: Seq<char>, t: ItemType) -> bool {
    if filter == "images"@ {
        t == ItemType::Image || t == ItemType::Vector || t == ItemType::Cover
    } else if filter == "documents"@ {
        t == ItemType::Document
    } else if filter == "styles"@ {
        t == ItemType::Style
    } else {
        true
    }
}

/// Whether an item type passes an extraction filter.
pub fn type_matches(filter: &str, item_type: ItemType) -> (res: bool)
    ensures
        res == filter_takes(filter@, item_type),
{
    proof {
        reveal_strlit("all");
        reveal_strlit("images");
        reveal_strlit("documents");
        reveal_strlit("styles");
    }
    if str_eq(filter, "all") {
        assert("all"@.len() == 3 && "images"@.len() == 6 && "documents"@.len() == 9 && "styles"@.len() == 6);
        true
    } else if str_eq(filter, "images") {
        item_type == ItemType::Image || item_type == ItemType::Vector || item_type == ItemType::Cover
    } else if str_eq(filter, "documents") {
        item_type == ItemType::Document
    } else if str_eq(filter, "styles") {
        item_type == ItemType::Style
    } else {
        true
    }
}

/// `s` with each backslash turned into a slash.
pub open spec fn slashes(s: Seq<char>) -> Seq<char> {
    Seq::new(s.len(), |i: int| if s[i] == '\\' { '/' } else { s[i] })
}

/// The path under which an item is extracted: its href with backslashes
/// as slashes, unless that holds `..` or starts with `/` (then none).
pub open spec fn extract_path(href: Seq<char>) -> Option<Seq<char>> {
    let p = slashes(href);
    if text::contains(p, ".."@) || text::starts_with(p, "/"@) {
        None
    } else {
        Some(p)
    }
}

/// An extraction path never climbs out (`..`), never starts at the root
/// (`/`), and holds no backslash.
pub proof fn lemma_extract_path_safe(href: Seq<char>)
    ensures
        extract_path(href) matches Some(p) ==> !text::contains(p, ".."@) && !text::starts_with(p, "/"@)
            && forall|i: int| 0 <= i < p.len() ==> p[i] != '\\',
{
}

/// The path under which an item may be extracted, or `None` for an href
/// that could leave the output directory.
pub fn safe_extract_path(href: &str) -> (res: Option<String>)
    ensures
        crate::xml::opt_str(res) == extract_path(href@),
{
    let cs = chars_of(href);
    let n = cs.len();
    let mut p = String::new();
    let mut i: usize = 0;
    while i < n
        invariant
            i <= n,
            n == cs@.len(),
            cs@ == href@,
            p@ == slashes(href@).take(i as int),
        decreases n - i,
    {
        let c = if cs[i] == '\\' { '/' } else { cs[i] };
        push_char(&mut p, c);
        assert(p@ =~= slashes(href@).take(i + 1));
        i += 1;
    }
    assert(slashes(href@).take(n as int) =~= slashes(href@));
    if text::str_contains(p.as_str(), "..") || text::str_starts_with(p.as_str(), "/") {
        None
    } else {
        Some(p)
    }
}

/// The texts of the values under `ns` and `field`, in order.
pub fn metadata_values(book: &EpubBook, ns: &str, field: &str) -> (res: Vec<String>)
    ensures
        res@.map_values(|s: String| s@) == match field_values(book.metadata@, ns@, field@) {
            Some(v) => v.map_values(|it: crate::metadata::ItemView| it.0),
            None => Seq::empty(),
        },
{
    let mut out: Vec<String> = Vec::new();
    match book.metadata.get(ns, field) {
        Some(items) => {
            let ghost iv = items_view(items@);
            let n = items.len();
            let mut i: usize = 0;
            while i < n
                invariant
                    i <= n,
                    n == items@.len(),
                    iv == items_view(items@),
                    out@.len() == i,
                    out@.map_values(|s: String| s@) == iv.map_values(|it: crate::metadata::ItemView| it.0).take(i as int),
                decreases n - i,
            {
                let ghost before = out@;
                assert(iv[i as int] == items@[i as int]@);
                out.push(items[i].value.as_str().to_owned());
                assert(out@.map_values(|s: String| s@) =~= iv.map_values(|it: crate::metadata::ItemView| it.0).take(i + 1));
                i += 1;
            }
            assert(iv.map_values(|it: crate::metadata::ItemView| it.0).take(n as int) =~= iv.map_values(
                |it: crate::metadata::ItemView| it.0,
            ));
        },
        None => {
            assert(out@.map_values(|s: String| s@) =~= Seq::<Seq<char>>::empty());
        },
    }
    out
}

/// `s` with each `"` doubled, as a CSV field holds it.
pub open spec fn csv_escaped(s: Seq<char>) -> Seq<char>
    decreases s.len(),
{
    if s.len() == 0 {
        Seq::empty()
    } else {
        csv_escaped(s.drop_last()) + if s.last() == '"' {
            seq!['"', '"']
        } else {
            seq![s.last()]
        }
    }
}

/// `s` with each `"` doubled.
pub fn csv_escape(s: &str) -> (res: String)
    ensures
        res@ == csv_escaped(s@),
{
    let cs = chars_of(s);
    let n = cs.len();
    let mut out = String::new();
    let mut i: usize = 0;
    while i < n
        invariant
            i <= n,
            n == cs@.len(),
            cs@ == s@,
            out@ == csv_escaped(s@.take(i as int)),
        decreases n - i,
    {
        assert(s@.take(i + 1).drop_last() =~= s@.take(i as int));
        if cs[i] == '"' {
            push_char(&mut out, '"');
            push_char(&mut out, '"');
        } else {
            push_char(&mut out, cs[i]);
        }
        assert(out@ =~= csv_escaped(s@.take(i + 1)));
        i += 1;
    }
    assert(s@.take(n as int) =~= s@);
    out
}

/// The first value under `DC` and `field`, or nothing.
pub open spec fn dc_or_empty(book: EpubBook, field: Seq<char>) -> Seq<char> {
    match first_value(book.metadata@, "DC"@, field) {
        Some(v) => v,
        None => Seq::empty(),
    }
}

/// The title, author and language that a scan reports, each empty when
/// missing.
pub fn scan_fields(book: &EpubBook) -> (res: (String, String, String))
    ensures
        res.0@ == dc_or_empty(*book, "title"@),
        res.1@ == dc_or_empty(*book, "creator"@),
        res.2@ == dc_or_empty(*book, "language"@),
{
    proof {
        reveal_strlit("");
    }
    let title = match book.get_metadata_value("DC", "title") {
        Some(v) => v.to_owned(),
        None => String::new(),
    };
    let author = match book.get_metadata_value("DC", "creator") {
        Some(v) => v.to_owned(),
        None => String::new(),
    };
    let lang = match book.get_metadata_value("DC", "language") {
        Some(v) => v.to_owned(),
        None => String::new(),
    };
    (title, author, lang)
}

/// The CSV row of a scanned book:
/// `"path","title","author",lang,items,spine,toc`.
pub fn scan_csv_row(path: &str, book: &EpubBook) -> (res: String)
    ensures
        res@ == "\""@ + path@ + "\",\""@ + csv_escaped(dc_or_empty(*book, "title"@)) + "\",\""@
            + csv_escaped(dc_or_empty(*book, "creator"@)) + "\","@ + dc_or_empty(*book, "language"@) + ","@
            + decimal(book.items@.len() as nat) + ","@ + decimal(book.spine@.len() as nat) + ","@ + decimal(
            book.toc@.len() as nat,
        ),
{
    let (title, author, lang) = scan_fields(book);
    let mut s = "\"".to_owned();
    push_str(&mut s, path);
    push_str(&mut s, "\",\"");
    push_str(&mut s, csv_escape(title.as_str()).as_str());
    push_str(&mut s, "\",\"");
    push_str(&mut s, csv_escape(author.as_str()).as_str());
    push_str(&mut s, "\",");
    push_str(&mut s, lang.as_str());
    push_str(&mut s, ",");
    push_decimal(&mut s, book.items.len() as u64);
    push_str(&mut s, ",");
    push_decimal(&mut s, book.spine.len() as u64);
    push_str(&mut s, ",");
    push_decimal(&mut s, book.toc.len() as u64);
    s
}

/// The text line of a scanned book: `path: "title" by author [lang, N items]`.
pub fn scan_text_row(path: &str, book: &EpubBook) -> (res: String)
    ensures
        res@ == path@ + ": \""@ + dc_or_empty(*book, "title"@) + "\" by "@ + dc_or_empty(*book, "creator"@)
            + " ["@ + dc_or_empty(*book, "language"@) + ", "@ + decimal(book.items@.len() as nat)
            + " items]"@,
{
    let (title, author, lang) = scan_fields(book);
    let mut s = path.to_owned();
    push_str(&mut s, ": \"");
    push_str(&mut s, title.as_str());
    push_str(&mut s, "\" by ");
    push_str(&mut s, author.as_str());
    push_str(&mut s, " [");
    push_str(&mut s, lang.as_str());
    push_str(&mut s, ", ");
    push_decimal(&mut s, book.items.len() as u64);
    push_str(&mut s, " items]");
    s
}

} // verus!
