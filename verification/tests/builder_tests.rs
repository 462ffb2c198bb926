use std::sync::Arc;

use fast_ebook::builder::strip_html_tags;
use fast_ebook::errors::EpubError;
use fast_ebook::item_type::ItemType;
use fast_ebook::model::{EpubBook, EpubItem};
use fast_ebook::ncx::TocEntry;
use fast_ebook::report::{csv_escape, safe_extract_path, scan_csv_row, scan_text_row, type_matches};
use fast_ebook::timestamp::{current_utc_timestamp, format_utc_timestamp};

#[test]
fn strips_tags_and_squeezes_space() {
    assert_eq!(strip_html_tags("<p> Hello \n <b>world</b> </p>"), "Hello world");
    assert_eq!(strip_html_tags("<br/>"), "");
}

#[test]
fn builder_methods_fill_the_book() {
    let mut book = EpubBook::default();
    book.set_identifier("id1");
    book.set_title("T");
    book.set_language("en");
    book.add_author("A", Some("A, B"), Some("aut"), Some("au1"));
    book.add_author("C", None, None, None);
    assert_eq!(book.get_metadata_value("DC", "identifier"), Some("id1"));
    let creators = book.get_metadata("DC", "creator");
    assert_eq!(creators.len(), 2);
    assert_eq!(
        creators[0].1,
        vec![
            ("opf:file-as".to_string(), "A, B".to_string()),
            ("opf:role".to_string(), "aut".to_string()),
            ("id".to_string(), "au1".to_string()),
        ]
    );
    assert!(creators[1].1.is_empty());
    assert_eq!(book.repr(), "EpubBook(title='T')");
    assert_eq!(EpubBook::default().repr(), "EpubBook(title='<untitled>')");
}

#[test]
fn raw_items_take_their_type_from_properties() {
    let mut book = EpubBook::default();
    book.add_item_raw("n", "nav.xhtml", "application/xhtml+xml", Vec::new(), 9, Some("nav scripted"));
    book.add_item_raw("c", "c.jpg", "image/jpeg", Vec::new(), 1, Some("cover-image"));
    book.add_item_raw("d", "d.xhtml", "application/xhtml+xml", b"<p>x</p>".to_vec(), 9, None);
    assert_eq!(book.items[0].item_type, ItemType::Navigation);
    assert_eq!(book.items[1].item_type, ItemType::Cover);
    assert_eq!(book.items[2].item_type, ItemType::Document);
    assert!(book.items[0].properties.is_none());
    assert_eq!(book.get_items_of_type(9).len(), 1);
    assert_eq!(book.items[2].get_text(), Some("x".to_string()));
    assert_eq!(book.items[1].get_text(), None);
    assert_eq!(book.items[0].get_text(), None);
    assert_eq!(book.items[2].repr(), "EpubItem(id='d', href='d.xhtml', type=9)");
}

#[test]
fn cover_adds_item_and_metadata() {
    let mut book = EpubBook::default();
    book.set_cover("images/cover.png", vec![1, 2, 3]);
    let cover = book.get_item_by_id("cover-image").unwrap();
    assert_eq!(cover.media_type, "image/png");
    assert_eq!(cover.item_type, ItemType::Cover);
    assert_eq!(book.get_metadata_value("OPF", "cover"), Some("cover-image"));
}

#[test]
fn spine_and_toc_setters() {
    let mut book = EpubBook::default();
    book.set_spine_from_entries(vec![("a".to_string(), true), ("b".to_string(), false)]);
    assert_eq!(book.get_spine(), vec![("a".to_string(), true), ("b".to_string(), false)]);
    book.set_toc(vec![TocEntry::new("T", "t.xhtml", Vec::new())]);
    assert_eq!(book.toc[0].repr(), "TocEntry(title='T', href='t.xhtml')");
}

#[test]
fn added_items_are_found_by_id_and_href() {
    let mut book = EpubBook::default();
    let item = Arc::new(EpubItem::eager(
        "x".to_string(),
        "x.css".to_string(),
        "text/css".to_string(),
        ItemType::Style,
        Vec::new(),
    ));
    book.add_item(item);
    assert_eq!(book.get_item_by_id("x").unwrap().href, "x.css");
    assert_eq!(book.get_item_by_href("x.css").unwrap().id, "x");
    assert!(book.get_item_by_id("y").is_none());
}

#[test]
fn extraction_filters_and_paths() {
    assert!(type_matches("images", ItemType::Cover));
    assert!(!type_matches("images", ItemType::Document));
    assert!(type_matches("documents", ItemType::Document));
    assert!(type_matches("styles", ItemType::Style));
    assert!(type_matches("whatever", ItemType::Font));
    assert_eq!(safe_extract_path("a\\b.png"), Some("a/b.png".to_string()));
    assert_eq!(safe_extract_path("../evil"), None);
    assert_eq!(safe_extract_path("/abs"), None);
    assert_eq!(safe_extract_path("\\abs"), None);
}

#[test]
fn scan_rows() {
    let mut book = EpubBook::default();
    book.set_title("Say \"hi\"");
    book.set_language("en");
    assert_eq!(csv_escape("a\"b"), "a\"\"b");
    assert_eq!(scan_csv_row("b.epub", &book), "\"b.epub\",\"Say \"\"hi\"\"\",\"\",en,0,0,0");
    assert_eq!(scan_text_row("b.epub", &book), "b.epub: \"Say \"hi\"\" by  [en, 0 items]");
}

#[test]
fn timestamps() {
    assert_eq!(format_utc_timestamp(0), "1970-01-01T00:00:00Z");
    assert_eq!(format_utc_timestamp(1704067200), "2024-01-01T00:00:00Z");
    assert_eq!(format_utc_timestamp(951782400 + 3661), "2000-02-29T01:01:01Z");
    assert_eq!(format_utc_timestamp(-1), "1970-01-01T00:00:-1Z");
    let now = current_utc_timestamp();
    assert_eq!(now.len(), 20);
    assert!(now.ends_with('Z'));
}

#[test]
fn cloned_items_hold_their_content() {
    let item = EpubItem::eager(
        "i".to_string(),
        "i.css".to_string(),
        "text/css".to_string(),
        ItemType::Style,
        b"body{}".to_vec(),
    );
    let copy = item.clone();
    assert_eq!(copy.id, "i");
    assert_eq!(copy.get_content(), b"body{}".to_vec());
    assert!(copy.lazy_source.is_none());
}

#[test]
fn error_messages() {
    assert_eq!(EpubError::MissingTitle.message(), "Book must have a title set");
    assert_eq!(EpubError::MissingOpf("a.opf".to_string()).message(), "OPF file not found in archive: a.opf");
    let xml_err = fast_ebook::xml::parse_document("<a").err().unwrap();
    assert!(xml_err.message().starts_with("XML parsing error: "));
}
