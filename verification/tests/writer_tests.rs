use std::io::Read;
use std::sync::Arc;

use fast_ebook::errors::EpubError;
use fast_ebook::item_type::ItemType;
use fast_ebook::model::{EpubBook, EpubItem};
use fast_ebook::ncx::TocEntry;
use fast_ebook::spine::SpineItem;
use fast_ebook::writer::{
    generate_nav, generate_ncx, generate_opf, generate_opf_at, is_safe_xml_name, validate_for_write,
    write_epub_to_bytes, write_epub_to_bytes_at, xml_escape,
};

fn make_test_book() -> EpubBook {
    let mut book = EpubBook::default();
    book.set_metadata("DC", "identifier", "test-id-001", Vec::new());
    book.set_metadata("DC", "title", "Test Book", Vec::new());
    book.set_metadata("DC", "language", "en", Vec::new());

    book.add_item(Arc::new(EpubItem::eager(
        "ch1".to_string(),
        "chapter1.xhtml".to_string(),
        "application/xhtml+xml".to_string(),
        ItemType::Document,
        b"<html><body><h1>Hello</h1></body></html>".to_vec(),
    )));

    book.add_item(Arc::new(EpubItem::eager(
        "ncx".to_string(),
        "toc.ncx".to_string(),
        "application/x-dtbncx+xml".to_string(),
        ItemType::Navigation,
        Vec::new(),
    )));

    book.add_item(Arc::new(EpubItem::eager(
        "nav".to_string(),
        "nav.xhtml".to_string(),
        "application/xhtml+xml".to_string(),
        ItemType::Navigation,
        Vec::new(),
    )));

    book.spine = vec![SpineItem {
        idref: "ch1".to_string(),
        linear: true,
        properties: None,
    }];

    book.toc = vec![TocEntry {
        title: "Chapter 1".to_string(),
        href: "chapter1.xhtml".to_string(),
        children: Vec::new(),
    }];

    book
}

#[test]
fn test_generate_opf_contains_required_elements() {
    let book = make_test_book();
    let opf = generate_opf(&book, true, false);
    assert!(opf.contains("<dc:identifier"));
    assert!(opf.contains("test-id-001"));
    assert!(opf.contains("<dc:title>Test Book</dc:title>"));
    assert!(opf.contains("<dc:language>en</dc:language>"));
    assert!(opf.contains("dcterms:modified"));
    assert!(opf.contains("<manifest>"));
    assert!(opf.contains("<spine"));
    assert!(opf.contains("itemref idref=\"ch1\""));
}

#[test]
fn test_generate_ncx() {
    let book = make_test_book();
    let ncx = generate_ncx(&book, "test-id-001");
    assert!(ncx.contains("<navMap>"));
    assert!(ncx.contains("Chapter 1"));
    assert!(ncx.contains("chapter1.xhtml"));
    assert!(ncx.contains("playOrder=\"1\""));
}

#[test]
fn test_generate_nav() {
    let book = make_test_book();
    let nav = generate_nav(&book);
    assert!(nav.contains("epub:type=\"toc\""));
    assert!(nav.contains("Chapter 1"));
    assert!(nav.contains("chapter1.xhtml"));
}

#[test]
fn test_validate_missing_identifier() {
    let mut book = EpubBook::default();
    book.set_metadata("DC", "title", "Test", Vec::new());
    book.set_metadata("DC", "language", "en", Vec::new());
    book.spine = vec![SpineItem {
        idref: "ch1".to_string(),
        linear: true,
        properties: None,
    }];
    assert!(matches!(
        validate_for_write(&book),
        Err(EpubError::MissingIdentifier)
    ));
}

#[test]
fn test_validate_empty_spine() {
    let mut book = EpubBook::default();
    book.set_metadata("DC", "identifier", "id", Vec::new());
    book.set_metadata("DC", "title", "Test", Vec::new());
    book.set_metadata("DC", "language", "en", Vec::new());
    assert!(matches!(
        validate_for_write(&book),
        Err(EpubError::EmptySpine)
    ));
}

#[test]
fn test_xml_escape() {
    assert_eq!(xml_escape("a<b>c&d\"e"), "a&lt;b&gt;c&amp;d&quot;e");
}

#[test]
fn test_nested_toc_ncx() {
    let mut book = make_test_book();
    book.toc = vec![TocEntry {
        title: "Part 1".to_string(),
        href: "part1.xhtml".to_string(),
        children: vec![
            TocEntry {
                title: "Ch 1".to_string(),
                href: "ch1.xhtml".to_string(),
                children: Vec::new(),
            },
            TocEntry {
                title: "Ch 2".to_string(),
                href: "ch2.xhtml".to_string(),
                children: Vec::new(),
            },
        ],
    }];
    let ncx = generate_ncx(&book, "test-id");
    assert!(ncx.contains("Part 1"));
    assert!(ncx.contains("Ch 1"));
    assert!(ncx.contains("Ch 2"));
    assert!(ncx.contains("playOrder=\"1\""));
    assert!(ncx.contains("playOrder=\"2\""));
    assert!(ncx.contains("playOrder=\"3\""));
}

#[test]
fn written_archive_has_the_epub_layout() {
    let book = make_test_book();
    let bytes = write_epub_to_bytes(&book).unwrap();
    let mut archive = zip::ZipArchive::new(std::io::Cursor::new(bytes)).unwrap();

    let first = archive.by_index(0).unwrap();
    assert_eq!(first.name(), "mimetype");
    assert_eq!(first.compression(), zip::CompressionMethod::Stored);
    drop(first);

    let names: Vec<_> = (0..archive.len())
        .map(|i| archive.by_index(i).unwrap().name().to_string())
        .collect();
    assert!(names.contains(&"META-INF/container.xml".to_string()));
    assert!(names.contains(&"EPUB/content.opf".to_string()));
    assert!(names.contains(&"EPUB/toc.ncx".to_string()));
    assert!(names.contains(&"EPUB/nav.xhtml".to_string()));
    assert!(names.contains(&"EPUB/chapter1.xhtml".to_string()));

    let mut mimetype = String::new();
    archive.by_name("mimetype").unwrap().read_to_string(&mut mimetype).unwrap();
    assert_eq!(mimetype, "application/epub+zip");
}

#[test]
fn written_package_is_the_generated_one() {
    let book = make_test_book();
    let ts = "2024-05-06T07:08:09Z";
    let bytes = write_epub_to_bytes_at(&book, ts).unwrap();
    let mut archive = zip::ZipArchive::new(std::io::Cursor::new(bytes)).unwrap();
    let mut opf = String::new();
    archive.by_name("EPUB/content.opf").unwrap().read_to_string(&mut opf).unwrap();
    assert_eq!(opf, generate_opf_at(&book, true, false, ts));
    assert!(opf.contains("<meta property=\"dcterms:modified\">2024-05-06T07:08:09Z</meta>"));
    let mut ncx = String::new();
    archive.by_name("EPUB/toc.ncx").unwrap().read_to_string(&mut ncx).unwrap();
    assert_eq!(ncx, generate_ncx(&book, "test-id-001"));
}

#[test]
fn synthetic_nav_is_added_for_epub3_without_nav() {
    let mut book = make_test_book();
    book.items.retain(|i| i.id != "nav");
    let bytes = write_epub_to_bytes_at(&book, "2024-01-01T00:00:00Z").unwrap();
    let mut archive = zip::ZipArchive::new(std::io::Cursor::new(bytes)).unwrap();
    let mut nav = String::new();
    archive.by_name("EPUB/nav.xhtml").unwrap().read_to_string(&mut nav).unwrap();
    assert_eq!(nav, generate_nav(&book));
    let mut opf = String::new();
    archive.by_name("EPUB/content.opf").unwrap().read_to_string(&mut opf).unwrap();
    assert!(opf.contains("properties=\"nav\""));
}

#[test]
fn write_refusals_come_in_order() {
    let mut book = EpubBook::default();
    assert!(matches!(validate_for_write(&book), Err(EpubError::MissingIdentifier)));
    book.set_metadata("DC", "identifier", "id", Vec::new());
    assert!(matches!(validate_for_write(&book), Err(EpubError::MissingTitle)));
    book.set_metadata("DC", "title", "T", Vec::new());
    assert!(matches!(validate_for_write(&book), Err(EpubError::MissingLanguage)));
    assert!(matches!(write_epub_to_bytes(&book), Err(EpubError::MissingLanguage)));
    book.set_metadata("DC", "language", "en", Vec::new());
    assert!(matches!(validate_for_write(&book), Err(EpubError::EmptySpine)));
    book.spine.push(SpineItem::new("x", true));
    assert!(validate_for_write(&book).is_ok());
}

#[test]
fn duplicate_entry_names_fail_the_write() {
    let mut book = make_test_book();
    book.add_item(Arc::new(EpubItem::eager(
        "again".to_string(),
        "chapter1.xhtml".to_string(),
        "application/xhtml+xml".to_string(),
        ItemType::Document,
        b"x".to_vec(),
    )));
    assert!(matches!(write_epub_to_bytes(&book), Err(EpubError::Zip(_))));
}

#[test]
fn escaping_and_names() {
    assert_eq!(xml_escape("it's"), "it&apos;s");
    assert!(is_safe_xml_name("dc:title"));
    assert!(!is_safe_xml_name("a<b"));
    assert!(!is_safe_xml_name(""));
}

#[test]
fn epub2_books_write_epub2_packages() {
    let mut book = make_test_book();
    book.version = "2.0".to_string();
    let opf = generate_opf_at(&book, true, false, "2024-01-01T00:00:00Z");
    assert!(opf.contains("version=\"2.0\""));
    assert!(!opf.contains("dcterms:modified"));
}

#[test]
fn items_without_content_are_written_empty() {
    let mut book = make_test_book();
    book.add_item(std::sync::Arc::new(fast_ebook::model::EpubItem::eager(
        "css".to_string(),
        "style.css".to_string(),
        "text/css".to_string(),
        fast_ebook::item_type::ItemType::Style,
        Vec::new(),
    )));
    let bytes = write_epub_to_bytes_at(&book, "2024-01-01T00:00:00Z").unwrap();
    let mut zip = zip::ZipArchive::new(std::io::Cursor::new(bytes)).unwrap();
    assert_eq!(zip.by_name("EPUB/style.css").unwrap().size(), 0);
}
