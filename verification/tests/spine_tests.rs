use fast_ebook::spine::{parse_spine, SpineItem};
use fast_ebook::xml::parse_document;

fn parse_from_xml(xml: &str) -> (Vec<SpineItem>, Option<String>) {
    let doc = parse_document(xml).unwrap();
    let spine = doc.find_named(0, "spine").unwrap();
    parse_spine(&doc, spine)
}

#[test]
fn test_basic_spine() {
    let xml = r#"<package xmlns="http://www.idpf.org/2007/opf">
            <spine toc="ncx">
                <itemref idref="ch1"/>
                <itemref idref="ch2"/>
            </spine>
        </package>"#;
    let (items, toc) = parse_from_xml(xml);
    assert_eq!(items.len(), 2);
    assert_eq!(items[0].idref, "ch1");
    assert!(items[0].linear);
    assert_eq!(toc, Some("ncx".to_string()));
}

#[test]
fn test_nonlinear_item() {
    let xml = r#"<package xmlns="http://www.idpf.org/2007/opf">
            <spine>
                <itemref idref="ch1"/>
                <itemref idref="appendix" linear="no"/>
            </spine>
        </package>"#;
    let (items, toc) = parse_from_xml(xml);
    assert!(items[0].linear);
    assert!(!items[1].linear);
    assert_eq!(toc, None);
}

#[test]
fn itemrefs_without_idref_are_skipped_and_properties_kept() {
    let xml = r#"<package><spine>
        <itemref/>
        <itemref idref="a" linear="yes" properties="page-spread-left"/>
    </spine></package>"#;
    let (items, _) = parse_from_xml(xml);
    assert_eq!(items.len(), 1);
    assert!(items[0].linear);
    assert_eq!(items[0].properties.as_deref(), Some("page-spread-left"));
}
