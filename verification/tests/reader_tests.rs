use std::io::Write;
use std::sync::Arc;

use fast_ebook::errors::EpubError;
use fast_ebook::item_type::ItemType;
use fast_ebook::metadata::MetadataMap;
use fast_ebook::model::{EpubBook, EpubItem};
use fast_ebook::ncx::TocEntry;
use fast_ebook::reader::{
    merge_refines_into_dc, read_epub_from_bytes, read_epub_from_bytes_with_options, read_zip_entry,
    resolve_relative, ReadOptions,
};
use fast_ebook::spine::SpineItem;
use fast_ebook::writer::write_epub_to_bytes_at;

fn sample_book() -> EpubBook {
    let mut book = EpubBook::default();
    book.set_metadata("DC", "identifier", "urn:x", vec![("id".to_string(), "uid".to_string())]);
    book.set_metadata("DC", "title", "Sample", Vec::new());
    book.set_metadata("DC", "language", "en", Vec::new());
    book.add_metadata(
        "DC",
        "creator",
        "Ann Author",
        vec![
            ("opf:role".to_string(), "aut".to_string()),
            ("id".to_string(), "c1".to_string()),
        ],
    );
    book.add_item(Arc::new(EpubItem::eager(
        "ch1".to_string(),
        "text/ch1.xhtml".to_string(),
        "application/xhtml+xml".to_string(),
        ItemType::Document,
        b"<html><body><p>One</p></body></html>".to_vec(),
    )));
    book.add_item(Arc::new(EpubItem::eager(
        "nav".to_string(),
        "nav.xhtml".to_string(),
        "application/xhtml+xml".to_string(),
        ItemType::Navigation,
        Vec::new(),
    )));
    book.spine = vec![SpineItem::new("ch1", true)];
    book.toc = vec![TocEntry::new("One", "text/ch1.xhtml", Vec::new())];
    book
}

fn zip_of(entries: &[(&str, &[u8])]) -> Vec<u8> {
    let mut w = zip::ZipWriter::new(std::io::Cursor::new(Vec::new()));
    for (name, bytes) in entries {
        w.start_file(*name, zip::write::SimpleFileOptions::default()).unwrap();
        w.write_all(bytes).unwrap();
    }
    w.finish().unwrap().into_inner()
}

#[test]
fn written_book_reads_back() {
    let book = sample_book();
    let bytes = write_epub_to_bytes_at(&book, "2024-01-01T00:00:00Z").unwrap();
    let back = read_epub_from_bytes(&bytes).unwrap();
    assert_eq!(back.version, "3.0");
    assert_eq!(back.get_metadata_value("DC", "title"), Some("Sample"));
    assert_eq!(back.get_metadata_value("DC", "identifier"), Some("urn:x"));
    let creators = back.metadata.get("DC", "creator").unwrap();
    assert_eq!(creators[0].value, "Ann Author");
    assert_eq!(creators[0].attribute("opf:role"), Some("aut"));
    assert!(back.metadata.get("OPF", "role").is_none());
    assert_eq!(back.items.len(), 2);
    let ch1 = back.get_item_by_id("ch1").unwrap();
    assert_eq!(ch1.href, "text/ch1.xhtml");
    assert_eq!(ch1.item_type, ItemType::Document);
    assert_eq!(ch1.get_content(), b"<html><body><p>One</p></body></html>".to_vec());
    assert_eq!(back.spine.len(), 1);
    assert_eq!(back.spine[0].idref, "ch1");
    assert_eq!(back.toc.len(), 1);
    assert_eq!(back.toc[0].title, "One");
    assert_eq!(back.toc[0].href, "text/ch1.xhtml");
}

#[test]
fn lazy_and_eager_reads_agree() {
    let bytes = write_epub_to_bytes_at(&sample_book(), "2024-01-01T00:00:00Z").unwrap();
    let eager = read_epub_from_bytes(&bytes).unwrap();
    let lazy = read_epub_from_bytes_with_options(
        &bytes,
        &ReadOptions { ignore_ncx: false, ignore_nav: false, lazy: true },
    )
    .unwrap();
    assert_eq!(eager.items.len(), lazy.items.len());
    for (a, b) in eager.items.iter().zip(lazy.items.iter()) {
        assert_eq!(a.id, b.id);
        assert_eq!(a.get_content(), b.get_content());
        assert!(b.lazy_source.is_some());
        assert!(a.lazy_source.is_none());
    }
}

#[test]
fn ignoring_nav_leaves_toc_empty_without_ncx() {
    let bytes = write_epub_to_bytes_at(&sample_book(), "2024-01-01T00:00:00Z").unwrap();
    let book = read_epub_from_bytes_with_options(
        &bytes,
        &ReadOptions { ignore_ncx: false, ignore_nav: true, lazy: false },
    )
    .unwrap();
    assert!(book.toc.is_empty());
}

#[test]
fn read_failures_are_told_apart() {
    assert!(matches!(read_epub_from_bytes(b"not a zip"), Err(EpubError::Zip(_))));
    let no_container = zip_of(&[("mimetype", b"application/epub+zip")]);
    assert!(matches!(read_epub_from_bytes(&no_container), Err(EpubError::MissingContainer)));
    let container = br#"<container xmlns="urn:oasis:names:tc:opendocument:xmlns:container"><rootfiles><rootfile full-path="OPS/p.opf"/></rootfiles></container>"#;
    let no_opf = zip_of(&[("META-INF/container.xml", container)]);
    match read_epub_from_bytes(&no_opf) {
        Err(EpubError::MissingOpf(p)) => assert_eq!(p, "OPS/p.opf"),
        other => panic!("unexpected: {:?}", other.map(|b| b.items.len())),
    }
    let bad_opf = zip_of(&[("META-INF/container.xml", container), ("OPS/p.opf", b"<package")]);
    assert!(matches!(read_epub_from_bytes(&bad_opf), Err(EpubError::InvalidOpf(_))));
    let no_rootfile = zip_of(&[("META-INF/container.xml", b"<container/>")]);
    assert!(matches!(read_epub_from_bytes(&no_rootfile), Err(EpubError::MissingRootfile)));
}

#[test]
fn missing_sections_give_empty_parts_and_items_resolve_against_the_package() {
    let container = br#"<container xmlns="urn:oasis:names:tc:opendocument:xmlns:container"><rootfiles><rootfile full-path="OPS/p.opf"/></rootfiles></container>"#;
    let opf = br#"<package xmlns="http://www.idpf.org/2007/opf" version="2.0"><manifest><item id="img" href="../media/a.png" media-type="image/png"/></manifest></package>"#;
    let data = zip_of(&[
        ("META-INF/container.xml", container),
        ("OPS/p.opf", opf),
        ("media/a.png", b"PNG"),
    ]);
    let book = read_epub_from_bytes(&data).unwrap();
    assert_eq!(book.version, "2.0");
    assert!(book.spine.is_empty());
    assert!(book.toc.is_empty());
    assert_eq!(book.items.len(), 1);
    assert_eq!(book.items[0].item_type, ItemType::Image);
    assert_eq!(book.items[0].get_content(), b"PNG".to_vec());
}

#[test]
fn zip_entries_read_by_name() {
    let data = zip_of(&[("a.txt", b"hello")]);
    assert_eq!(read_zip_entry(&data, "a.txt").unwrap(), b"hello".to_vec());
    assert!(matches!(read_zip_entry(&data, "b.txt"), Err(EpubError::Zip(_))));
}

#[test]
fn resolve_relative_examples() {
    assert_eq!(resolve_relative("EPUB/", "ch1.xhtml"), "EPUB/ch1.xhtml");
    assert_eq!(resolve_relative("EPUB/", "../media/img.jpg"), "media/img.jpg");
    assert_eq!(resolve_relative("EPUB/sub/", "../style.css"), "EPUB/style.css");
    assert_eq!(resolve_relative("", "OPS/content.opf"), "OPS/content.opf");
    assert_eq!(resolve_relative("a/", "./b//c"), "a/b/c");
}

#[test]
fn refinements_move_into_dc_attributes() {
    let mut meta = MetadataMap::new();
    let mut book = EpubBook::default();
    book.add_metadata("DC", "creator", "Jane", vec![("id".to_string(), "cre".to_string())]);
    book.add_metadata(
        "OPF",
        "role",
        "aut",
        vec![
            ("refines".to_string(), "#cre".to_string()),
            ("property".to_string(), "role".to_string()),
        ],
    );
    book.add_metadata(
        "OPF",
        "other",
        "keep",
        vec![("property".to_string(), "other".to_string())],
    );
    std::mem::swap(&mut meta, &mut book.metadata);
    merge_refines_into_dc(&mut meta);
    let creators = meta.get("DC", "creator").unwrap();
    assert_eq!(creators[0].attribute("opf:role"), Some("aut"));
    assert!(meta.get("OPF", "role").is_none());
    assert_eq!(meta.get("OPF", "other").unwrap()[0].value, "keep");
}

#[test]
fn refinement_of_unknown_id_is_left_alone() {
    let mut book = EpubBook::default();
    book.add_metadata("DC", "creator", "Jane", Vec::new());
    book.add_metadata(
        "OPF",
        "file-as",
        "Doe",
        vec![
            ("refines".to_string(), "#nobody".to_string()),
            ("property".to_string(), "file-as".to_string()),
        ],
    );
    merge_refines_into_dc(&mut book.metadata);
    assert_eq!(book.metadata.get("OPF", "file-as").unwrap().len(), 1);
    assert!(book.metadata.get("DC", "creator").unwrap()[0].attributes.is_empty());
}

#[test]
fn ignoring_both_tables_of_contents_keeps_the_rest() {
    let bytes = write_epub_to_bytes_at(&sample_book(), "2024-01-01T00:00:00Z").unwrap();
    let full = read_epub_from_bytes(&bytes).unwrap();
    let opts = ReadOptions { ignore_ncx: true, ignore_nav: true, lazy: false };
    let bare = read_epub_from_bytes_with_options(&bytes, &opts).unwrap();
    assert!(!full.toc.is_empty());
    assert!(bare.toc.is_empty());
    assert_eq!(bare.version, full.version);
    assert_eq!(bare.items.len(), full.items.len());
    assert_eq!(bare.spine.len(), full.spine.len());
    assert_eq!(
        bare.get_metadata_value("DC", "title"),
        full.get_metadata_value("DC", "title")
    );
}

#[test]
fn lazy_and_eager_items_hold_the_same_content() {
    let bytes = write_epub_to_bytes_at(&sample_book(), "2024-01-01T00:00:00Z").unwrap();
    let eager = read_epub_from_bytes(&bytes).unwrap();
    let opts = ReadOptions { ignore_ncx: false, ignore_nav: false, lazy: true };
    let lazy = read_epub_from_bytes_with_options(&bytes, &opts).unwrap();
    for (a, b) in lazy.items.iter().zip(eager.items.iter()) {
        assert_eq!(a.id, b.id);
        assert_eq!(a.get_content(), b.get_content());
        assert_eq!(a.get_content(), b.get_content());
    }
}

#[test]
fn resolving_a_resolved_path_again_keeps_it() {
    let r = resolve_relative("OEBPS/text", "../images/./a//b.png");
    assert_eq!(r, "OEBPS/images/a/b.png");
    assert_eq!(resolve_relative("", &r), r);
}

#[test]
fn a_bare_package_reads_as_an_empty_book() {
    let container = br#"<?xml version="1.0"?><container xmlns="urn:oasis:names:tc:opendocument:xmlns:container"><rootfiles><rootfile full-path="p.opf"/></rootfiles></container>"#;
    let opf = br#"<?xml version="1.0"?><package xmlns="http://www.idpf.org/2007/opf" version="3.0"/>"#;
    let data = zip_of(&[("META-INF/container.xml", container), ("p.opf", opf)]);
    let book = read_epub_from_bytes(&data).unwrap();
    assert!(book.metadata.namespaces.is_empty());
    assert!(book.items.is_empty());
    assert!(book.spine.is_empty());
    assert!(book.toc.is_empty());
}

#[test]
fn a_malformed_container_is_an_invalid_package() {
    let data = zip_of(&[("META-INF/container.xml", b"<container")]);
    assert!(matches!(read_epub_from_bytes(&data), Err(EpubError::InvalidOpf(_))));
}
