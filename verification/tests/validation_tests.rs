use std::sync::Arc;

use fast_ebook::item_type::ItemType;
use fast_ebook::model::{EpubBook, EpubItem};
use fast_ebook::spine::SpineItem;
use fast_ebook::validation::validate;

fn make_valid_book() -> EpubBook {
    let mut book = EpubBook::default();
    book.set_metadata("DC", "identifier", "id", Vec::new());
    book.set_metadata("DC", "title", "Title", Vec::new());
    book.set_metadata("DC", "language", "en", Vec::new());
    book.add_item(Arc::new(EpubItem::eager(
        "ch1".to_string(),
        "ch1.xhtml".to_string(),
        "application/xhtml+xml".to_string(),
        ItemType::Document,
        Vec::new(),
    )));
    book.add_item(Arc::new(EpubItem::eager(
        "nav".to_string(),
        "nav.xhtml".to_string(),
        "application/xhtml+xml".to_string(),
        ItemType::Navigation,
        Vec::new(),
    )));
    book.spine = vec![SpineItem {
        idref: "ch1".to_string(),
        linear: true,
        properties: None,
    }];
    book
}

#[test]
fn test_valid_book_has_no_issues() {
    let book = make_valid_book();
    assert!(validate(&book).is_empty());
}

#[test]
fn test_missing_identifier() {
    let mut book = make_valid_book();
    book.metadata.remove_field("DC", "identifier");
    let issues = validate(&book);
    assert!(issues.iter().any(|i| i.contains("identifier")));
}

#[test]
fn test_dangling_spine_ref() {
    let mut book = make_valid_book();
    book.spine.push(SpineItem {
        idref: "nonexistent".to_string(),
        linear: true,
        properties: None,
    });
    let issues = validate(&book);
    assert!(issues.iter().any(|i| i.contains("nonexistent")));
}

#[test]
fn test_no_navigation() {
    let mut book = make_valid_book();
    book.items.retain(|i| i.item_type != ItemType::Navigation);
    let issues = validate(&book);
    assert!(issues.iter().any(|i| i.contains("navigation")));
}

#[test]
fn duplicates_and_empty_spine_are_reported() {
    let mut book = make_valid_book();
    book.add_item(Arc::new(EpubItem::eager(
        "ch1".to_string(),
        "ch1.xhtml".to_string(),
        "application/xhtml+xml".to_string(),
        ItemType::Document,
        Vec::new(),
    )));
    book.spine.clear();
    let issues = validate(&book);
    assert!(issues.iter().any(|i| i.contains("Spine is empty")));
    assert!(issues.iter().any(|i| i.contains("Duplicate") && i.contains("ch1")));
}

#[test]
fn valid_books_pass_the_write_checks() {
    let book = make_valid_book();
    assert!(validate(&book).is_empty());
    assert!(fast_ebook::writer::validate_for_write(&book).is_ok());
}
