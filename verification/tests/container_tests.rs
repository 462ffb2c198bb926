use fast_ebook::container::{parse_container, rootfile_path};
use fast_ebook::errors::EpubError;
use fast_ebook::xml::parse_document;

#[test]
fn test_parse_container_basic() {
    let xml = r#"<?xml version="1.0" encoding="UTF-8"?>
        <container xmlns="urn:oasis:names:tc:opendocument:xmlns:container" version="1.0">
          <rootfiles>
            <rootfile full-path="OEBPS/content.opf" media-type="application/oebps-package+xml"/>
          </rootfiles>
        </container>"#;
    assert_eq!(parse_container(xml).unwrap(), "OEBPS/content.opf");
}

#[test]
fn test_parse_container_root_level_opf() {
    let xml = r#"<?xml version="1.0"?>
        <container xmlns="urn:oasis:names:tc:opendocument:xmlns:container" version="1.0">
          <rootfiles>
            <rootfile full-path="content.opf" media-type="application/oebps-package+xml"/>
          </rootfiles>
        </container>"#;
    assert_eq!(parse_container(xml).unwrap(), "content.opf");
}

#[test]
fn test_parse_container_missing_rootfile() {
    let xml = r#"<?xml version="1.0"?>
        <container xmlns="urn:oasis:names:tc:opendocument:xmlns:container" version="1.0">
          <rootfiles/>
        </container>"#;
    assert!(parse_container(xml).is_err());
}

#[test]
fn container_errors_are_told_apart() {
    let missing = r#"<container xmlns="urn:oasis:names:tc:opendocument:xmlns:container"><rootfiles/></container>"#;
    assert!(matches!(parse_container(missing), Err(EpubError::MissingRootfile)));
    assert!(matches!(parse_container("<container"), Err(EpubError::InvalidOpf(_))));
}

#[test]
fn rootfile_outside_the_namespace_is_ignored() {
    let xml = r#"<container><rootfiles><rootfile full-path="x.opf"/></rootfiles></container>"#;
    let doc = parse_document(xml).unwrap();
    assert_eq!(rootfile_path(&doc), None);
}

#[test]
fn rootfile_without_path_is_skipped() {
    let xml = r#"<container xmlns="urn:oasis:names:tc:opendocument:xmlns:container">
        <rootfiles><rootfile/><rootfile full-path="second.opf"/></rootfiles></container>"#;
    assert_eq!(parse_container(xml).unwrap(), "second.opf");
}
