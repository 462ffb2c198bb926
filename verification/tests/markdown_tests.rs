use std::sync::Arc;

use fast_ebook::item_type::ItemType;
use fast_ebook::markdown::{book_to_markdown, html_to_markdown, try_book_to_markdown};
use fast_ebook::model::{EpubBook, EpubItem};
use fast_ebook::spine::SpineItem;

#[test]
fn test_basic_html() {
    let md = html_to_markdown("<html><body><h1>Title</h1><p>Hello world.</p></body></html>");
    assert!(md.contains("# Title"));
    assert!(md.contains("Hello world."));
}

#[test]
fn test_bold_italic() {
    let md = html_to_markdown("<body><p>This is <b>bold</b> and <i>italic</i>.</p></body>");
    assert!(md.contains("**bold**"));
    assert!(md.contains("*italic*"));
}

#[test]
fn test_headings() {
    let md = html_to_markdown("<body><h1>H1</h1><h2>H2</h2><h3>H3</h3></body>");
    assert!(md.contains("# H1"));
    assert!(md.contains("## H2"));
    assert!(md.contains("### H3"));
}

#[test]
fn test_entities() {
    let md = html_to_markdown("<body><p>A &amp; B &lt; C &gt; D</p></body>");
    assert!(md.contains("A & B < C > D"));
}

#[test]
fn test_list() {
    let md = html_to_markdown("<body><ul><li>One</li><li>Two</li></ul></body>");
    assert!(md.contains("- One"));
    assert!(md.contains("- Two"));
}

#[test]
fn test_strips_tags() {
    let md = html_to_markdown("<body><div class=\"chapter\"><span>Text</span></div></body>");
    assert!(md.contains("Text"));
    assert!(!md.contains("<span>"));
    assert!(!md.contains("<div"));
}

#[test]
fn test_empty_body() {
    let md = html_to_markdown("<html><body></body></html>");
    assert!(md.is_empty());
}

#[test]
fn test_no_body_tag() {
    let md = html_to_markdown("<p>Just a paragraph</p>");
    assert!(md.contains("Just a paragraph"));
}

#[test]
fn markdown_has_no_outer_white_space() {
    let md = html_to_markdown("<body>\n\n   <p>  Spaced out  </p>\n\n </body>");
    assert_eq!(md, md.trim());
    assert!(md.contains("Spaced out"));
}

#[test]
fn links_and_entities_convert_exactly() {
    let md = html_to_markdown("<body><p>See <a href=\"ch2.xhtml\">next</a> &#65;&#x42;</p></body>");
    assert!(md.contains("[next](ch2.xhtml)"));
    assert!(md.contains("AB"));
}

fn chapter(id: &str, html: &str) -> Arc<EpubItem> {
    Arc::new(EpubItem::eager(
        id.to_string(),
        format!("{id}.xhtml"),
        "application/xhtml+xml".to_string(),
        ItemType::Document,
        html.as_bytes().to_vec(),
    ))
}

fn two_chapter_book() -> EpubBook {
    let mut book = EpubBook::default();
    book.set_metadata("DC", "title", "Tale", Vec::new());
    book.set_metadata("DC", "creator", "Someone", Vec::new());
    book.add_item(chapter("c1", "<body><h1>One</h1></body>"));
    book.add_item(chapter("c2", "<body><p>Two</p></body>"));
    book.add_item(chapter("c3", "<body></body>"));
    book.spine = vec![
        SpineItem::new("c2", true),
        SpineItem::new("c3", true),
        SpineItem::new("missing", true),
        SpineItem::new("c1", true),
    ];
    book
}

#[test]
fn book_markdown_follows_spine_order() {
    let book = two_chapter_book();
    let md = book_to_markdown(&book);
    assert_eq!(md, "# Tale\n\n**Someone**\n\n---\n\nTwo\n\n---\n\n# One");
}

#[test]
fn book_markdown_defaults_title_and_author() {
    let mut book = EpubBook::default();
    book.add_item(chapter("c1", "<body><p>Only</p></body>"));
    book.spine = vec![SpineItem::new("c1", true)];
    assert_eq!(book_to_markdown(&book), "# Untitled\n\n**Unknown**\n\n---\n\nOnly");
}

#[test]
fn checked_book_markdown_refuses_reversed_body() {
    let mut book = two_chapter_book();
    assert_eq!(try_book_to_markdown(&book), Some(book_to_markdown(&book)));
    book.add_item(chapter("bad", "</body>text<body>x"));
    book.spine.push(SpineItem::new("bad", true));
    assert_eq!(try_book_to_markdown(&book), None);
}

#[test]
fn markdown_keeps_no_tag_and_trims_every_line() {
    let md = html_to_markdown(
        "<html><head><title>T</title></head><body><div class=\"x\"><h2>Head</h2>  <p>Line one   </p>\n<br/><blockquote>Quote</blockquote><hr/><ul><li>Item</li></ul></div></body></html>",
    );
    assert!(!md.contains('<'));
    assert_eq!(md, md.trim());
    assert!(md.split('\n').all(|l| l == l.trim_end()));
}
