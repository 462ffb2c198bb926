//! Checks of a book against the EPUB requirements.
use vstd::prelude::*;
use std::sync::Arc;
use crate::item_type::ItemType;
use crate::metadata;
use crate::model::{EpubBook, EpubItem};
use crate::spine::SpineItem;
use crate::text::{push_str, str_eq};

verus! {

/// Some item has the id `id`.
pub open spec fn has_item_id(items: Seq<Arc<EpubItem>>, id: Seq<char>) -> bool {
    exists|i: int| 0 <= i < items.len() && items[i].id@ == id
}

/// The issues for the first `n` spine entries that name no item.
pub open spec fn spine_ref_issues(items: Seq<Arc<EpubItem>>, spine: Seq<SpineItem>, n: int) -> Seq<Seq<char>>
    decreases n,
{
    if n <= 0 || n > spine.len() {
        Seq::empty()
    } else {
        spine_ref_issues(items, spine, n - 1) + if has_item_id(items, spine[n - 1].idref@) {
            Seq::empty()
        } else {
            seq!["Spine references item '"@ + spine[n - 1].idref@ + "' which is not in the manifest"@]
        }
    }
}

/// The issues for the first `n` items whose id an earlier item already has.
pub open spec fn duplicate_id_issues(items: Seq<Arc<EpubItem>>, n: int) -> Seq<Seq<char>>
    decreases n,
{
    if n <= 0 || n > items.len() {
        Seq::empty()
    } else {
        duplicate_id_issues(items, n - 1) + if exists|j: int| 0 <= j < n - 1 && #[trigger] items[j].id@ == items[n - 1].id@ {
            seq!["Duplicate item ID: '"@ + items[n - 1].id@ + "'"@]
        } else {
            Seq::empty()
        }
    }
}

/// The issues for the first `n` items whose href an earlier item already has.
pub open spec fn duplicate_href_issues(items: Seq<Arc<EpubItem>>, n: int) -> Seq<Seq<char>>
    decreases n,
{
    if n <= 0 || n > items.len() {
        Seq::empty()
    } else {
        duplicate_href_issues(items, n - 1) + if exists|j: int| 0 <= j < n - 1 && #[trigger] items[j].href@ == items[n - 1].href@ {
            seq!["Duplicate item href: '"@ + items[n - 1].href@ + "'"@]
        } else {
            Seq::empty()
        }
    }
}

/// One issue if the Dublin Core field `field` has no value.
pub open spec fn required_issue(book: EpubBook, field: Seq<char>, msg: Seq<char>) -> Seq<Seq<char>> {
    if metadata::first_value(book.metadata@, "DC"@, field) is None {
        seq![msg]
    } else {
        Seq::empty()
    }
}

/// Every issue that validation reports, in the order it reports them:
/// missing identifier, title and language; an empty spine; spine entries
/// naming no item; repeated item ids; repeated item hrefs; and the lack of
/// a navigation item.
pub open spec fn validation_issues(book: EpubBook) -> Seq<Seq<char>> {
    let items = book.items@;
    required_issue(book, "identifier"@, "Missing required metadata: DC:identifier"@)
        + required_issue(book, "title"@, "Missing required metadata: DC:title"@)
        + required_issue(book, "language"@, "Missing required metadata: DC:language"@)
        + (if book.spine@.len() == 0 {
        seq!["Spine is empty \u{2014} at least one content document is required"@]
    } else {
        Seq::empty()
    }) + spine_ref_issues(items, book.spine@, book.spine@.len() as int)
        + duplicate_id_issues(items, items.len() as int)
        + duplicate_href_issues(items, items.len() as int)
        + (if exists|i: int| 0 <= i < items.len() && items[i].item_type == ItemType::Navigation {
        Seq::empty()
    } else {
        seq!["No navigation item (NCX or Nav document) found"@]
    })
}

/// No two of the first `n` items share an id.
pub open spec fn ids_distinct(items: Seq<Arc<EpubItem>>, n: int) -> bool {
    forall|a: int, b: int| 0 <= a < b < n ==> #[trigger] items[a].id@ != #[trigger] items[b].id@
}

/// No two of the first `n` items share an href.
pub open spec fn hrefs_distinct(items: Seq<Arc<EpubItem>>, n: int) -> bool {
    forall|a: int, b: int| 0 <= a < b < n ==> #[trigger] items[a].href@ != #[trigger] items[b].href@
}

/// What a valid book is: it has an identifier, a title and a language; its
/// spine is not empty and names only items of the manifest; no two items
/// share an id or an href; and some item is a navigation document.
pub open spec fn book_is_valid(book: EpubBook) -> bool {
    let items = book.items@;
    &&& metadata::first_value(book.metadata@, "DC"@, "identifier"@) is Some
    &&& metadata::first_value(book.metadata@, "DC"@, "title"@) is Some
    &&& metadata::first_value(book.metadata@, "DC"@, "language"@) is Some
    &&& book.spine@.len() > 0
    &&& forall|k: int| 0 <= k < book.spine@.len() ==> has_item_id(items, (#[trigger] book.spine@[k]).idref@)
    &&& ids_distinct(items, items.len() as int)
    &&& hrefs_distinct(items, items.len() as int)
    &&& exists|i: int| 0 <= i < items.len() && items[i].item_type == ItemType::Navigation
}

proof fn lemma_spine_refs_empty(items: Seq<Arc<EpubItem>>, spine: Seq<SpineItem>, n: int)
    requires
        0 <= n <= spine.len(),
    ensures
        spine_ref_issues(items, spine, n).len() == 0 <==> forall|k: int|
            0 <= k < n ==> has_item_id(items, (#[trigger] spine[k]).idref@),
    decreases n,
{
    if n > 0 {
        lemma_spine_refs_empty(items, spine, n - 1);
    }
}

proof fn lemma_duplicate_ids_empty(items: Seq<Arc<EpubItem>>, n: int)
    requires
        0 <= n <= items.len(),
    ensures
        duplicate_id_issues(items, n).len() == 0 <==> ids_distinct(items, n),
    decreases n,
{
    if n > 0 {
        lemma_duplicate_ids_empty(items, n - 1);
        if ids_distinct(items, n) {
            assert(!exists|j: int| 0 <= j < n - 1 && #[trigger] items[j].id@ == items[n - 1].id@);
        }
    }
}

proof fn lemma_duplicate_hrefs_empty(items: Seq<Arc<EpubItem>>, n: int)
    requires
        0 <= n <= items.len(),
    ensures
        duplicate_href_issues(items, n).len() == 0 <==> hrefs_distinct(items, n),
    decreases n,
{
    if n > 0 {
        lemma_duplicate_hrefs_empty(items, n - 1);
        if hrefs_distinct(items, n) {
            assert(!exists|j: int| 0 <= j < n - 1 && #[trigger] items[j].href@ == items[n - 1].href@);
        }
    }
}

/// Validation reports no issue exactly when the book is valid: it has an
/// identifier, a title and a language, a non-empty spine naming only
/// manifest items, distinct item ids and hrefs, and a navigation item.
pub proof fn lemma_no_issues_iff_valid(book: EpubBook)
    ensures
        validation_issues(book).len() == 0 <==> book_is_valid(book),
{
    let items = book.items@;
    lemma_spine_refs_empty(items, book.spine@, book.spine@.len() as int);
    lemma_duplicate_ids_empty(items, items.len() as int);
    lemma_duplicate_hrefs_empty(items, items.len() as int);
}

/// A book that validates without issues passes the checks made before
/// writing it.
pub proof fn lemma_valid_books_can_be_written(book: EpubBook)
    ensures
        validation_issues(book).len() == 0 ==> crate::writer::write_refusal(book) is None,
{
}

/// The texts of a list of strings.
pub open spec fn strings_view(v: Seq<String>) -> Seq<Seq<char>> {
    v.map_values(|s: String| s@)
}

/// Appends `s` to a list of strings.
fn push_issue(issues: &mut Vec<String>, s: String)
    ensures
        strings_view(final(issues)@) == strings_view(old(issues)@).push(s@),
{
    let ghost before = issues@;
    issues.push(s);
    assert(strings_view(issues@) =~= strings_view(before).push(s@));
}

/// Whether some item has the id `id`.
fn has_id(items: &Vec<Arc<EpubItem>>, id: &str) -> (res: bool)
    ensures
        res == has_item_id(items@, id@),
{
    let n = items.len();
    let mut i: usize = 0;
    while i < n
        invariant
            i <= n,
            n == items@.len(),
            forall|j: int| 0 <= j < i ==> items@[j].id@ != id@,
        decreases n - i,
    {
        if str_eq(items[i].id.as_str(), id) {
            return true;
        }
        i += 1;
    }
    false
}

/// Whether an item before index `k` has the id (or href) of item `k`.
fn seen_before(items: &Vec<Arc<EpubItem>>, k: usize, by_href: bool) -> (res: bool)
    requires
        k < items@.len(),
    ensures
        !by_href ==> res == exists|j: int| 0 <= j < k && items@[j].id@ == items@[k as int].id@,
        by_href ==> res == exists|j: int| 0 <= j < k && items@[j].href@ == items@[k as int].href@,
{
    let mut j: usize = 0;
    while j < k
        invariant
            j <= k < items@.len(),
            !by_href ==> forall|m: int| 0 <= m < j ==> items@[m].id@ != items@[k as int].id@,
            by_href ==> forall|m: int| 0 <= m < j ==> items@[m].href@ != items@[k as int].href@,
        decreases k - j,
    {
        let same = if by_href {
            str_eq(items[j].href.as_str(), items[k].href.as_str())
        } else {
            str_eq(items[j].id.as_str(), items[k].id.as_str())
        };
        if same {
            return true;
        }
        j += 1;
    }
    false
}

/// A message naming `name` between `before` and `after`.
fn message(before: &str, name: &str, after: &str) -> (res: String)
    ensures
        res@ == before@ + name@ + after@,
{
    let mut s = before.to_owned();
    push_str(&mut s, name);
    push_str(&mut s, after);
    s
}

/// The issues about missing required metadata and an empty spine.
pub open spec fn basic_issues(book: EpubBook) -> Seq<Seq<char>> {
    required_issue(book, "identifier"@, "Missing required metadata: DC:identifier"@)
        + required_issue(book, "title"@, "Missing required metadata: DC:title"@)
        + required_issue(book, "language"@, "Missing required metadata: DC:language"@)
        + (if book.spine@.len() == 0 {
        seq!["Spine is empty \u{2014} at least one content document is required"@]
    } else {
        Seq::empty()
    })
}

/// The issue about a missing navigation item.
pub open spec fn nav_issue(items: Seq<Arc<EpubItem>>) -> Seq<Seq<char>> {
    if exists|i: int| 0 <= i < items.len() && items[i].item_type == ItemType::Navigation {
        Seq::empty()
    } else {
        seq!["No navigation item (NCX or Nav document) found"@]
    }
}

proof fn lemma_validation_issues_parts(book: EpubBook)
    ensures
        validation_issues(book) == basic_issues(book) + spine_ref_issues(
            book.items@,
            book.spine@,
            book.spine@.len() as int,
        ) + duplicate_id_issues(book.items@, book.items@.len() as int) + duplicate_href_issues(
            book.items@,
            book.items@.len() as int,
        ) + nav_issue(book.items@),
{
}

fn basic_checks(book: &EpubBook) -> (res: Vec<String>)
    ensures
        strings_view(res@) == basic_issues(*book),
{
    let mut issues: Vec<String> = Vec::new();
    if book.get_metadata_value("DC", "identifier").is_none() {
        push_issue(&mut issues, "Missing required metadata: DC:identifier".to_owned());
    }
    if book.get_metadata_value("DC", "title").is_none() {
        push_issue(&mut issues, "Missing required metadata: DC:title".to_owned());
    }
    if book.get_metadata_value("DC", "language").is_none() {
        push_issue(&mut issues, "Missing required metadata: DC:language".to_owned());
    }
    if book.spine.len() == 0 {
        push_issue(
            &mut issues,
            "Spine is empty \u{2014} at least one content document is required".to_owned(),
        );
    }
    assert(strings_view(issues@) =~= basic_issues(*book));
    issues
}

fn spine_checks(book: &EpubBook, issues: &mut Vec<String>)
    ensures
        strings_view(final(issues)@) == strings_view(old(issues)@) + spine_ref_issues(
            book.items@,
            book.spine@,
            book.spine@.len() as int,
        ),
{
    let ghost base = strings_view(issues@);
    let ns = book.spine.len();
    let mut i: usize = 0;
    while i < ns
        invariant
            i <= ns,
            ns == book.spine@.len(),
            strings_view(issues@) == base + spine_ref_issues(book.items@, book.spine@, i as int),
        decreases ns - i,
    {
        let idref = book.spine[i].idref.as_str();
        let ghost before = strings_view(issues@);
        if !has_id(&book.items, idref) {
            push_issue(
                issues,
                message("Spine references item '", idref, "' which is not in the manifest"),
            );
        }
        assert(strings_view(issues@) =~= base + spine_ref_issues(book.items@, book.spine@, i + 1));
        i += 1;
    }
}

fn duplicate_checks(book: &EpubBook, by_href: bool, issues: &mut Vec<String>)
    ensures
        !by_href ==> strings_view(final(issues)@) == strings_view(old(issues)@)
            + duplicate_id_issues(book.items@, book.items@.len() as int),
        by_href ==> strings_view(final(issues)@) == strings_view(old(issues)@)
            + duplicate_href_issues(book.items@, book.items@.len() as int),
{
    let ghost base = strings_view(issues@);
    let ghost items = book.items@;
    let n = book.items.len();
    let mut k: usize = 0;
    while k < n
        invariant
            k <= n,
            n == items.len(),
            items == book.items@,
            !by_href ==> strings_view(issues@) == base + duplicate_id_issues(items, k as int),
            by_href ==> strings_view(issues@) == base + duplicate_href_issues(items, k as int),
        decreases n - k,
    {
        if seen_before(&book.items, k, by_href) {
            if by_href {
                push_issue(issues, message("Duplicate item href: '", book.items[k].href.as_str(), "'"));
            } else {
                push_issue(issues, message("Duplicate item ID: '", book.items[k].id.as_str(), "'"));
            }
        }
        assert(!by_href ==> strings_view(issues@) =~= base + duplicate_id_issues(items, k + 1));
        assert(by_href ==> strings_view(issues@) =~= base + duplicate_href_issues(items, k + 1));
        k += 1;
    }
}

fn has_navigation(items: &Vec<Arc<EpubItem>>) -> (res: bool)
    ensures
        res == exists|i: int| 0 <= i < items@.len() && items@[i].item_type == ItemType::Navigation,
{
    let n = items.len();
    let mut k: usize = 0;
    while k < n
        invariant
            k <= n,
            n == items@.len(),
            forall|j: int| 0 <= j < k ==> items@[j].item_type != ItemType::Navigation,
        decreases n - k,
    {
        if items[k].item_type == ItemType::Navigation {
            return true;
        }
        k += 1;
    }
    false
}

/// Check an EpubBook against the requirements of the EPUB format.
/// Returns a list of issue descriptions (empty = valid).
pub fn validate(book: &EpubBook) -> (res: Vec<String>)
    ensures
        strings_view(res@) == validation_issues(*book),
{
    let mut issues = basic_checks(book);
    spine_checks(book, &mut issues);
    duplicate_checks(book, false, &mut issues);
    duplicate_checks(book, true, &mut issues);
    let ghost before = strings_view(issues@);
    if !has_navigation(&book.items) {
        push_issue(&mut issues, "No navigation item (NCX or Nav document) found".to_owned());
    }
    proof {
        lemma_validation_issues_parts(*book);
        assert(strings_view(issues@) =~= before + nav_issue(book.items@));
    }
    issues
}

} // verus!
