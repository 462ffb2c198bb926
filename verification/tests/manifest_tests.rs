use fast_ebook::manifest::{parse_manifest, ManifestItem};
use fast_ebook::xml::parse_document;

fn parse_from_xml(xml: &str) -> Vec<ManifestItem> {
    let doc = parse_document(xml).unwrap();
    let manifest = doc.find_named(0, "manifest").unwrap();
    parse_manifest(&doc, manifest)
}

fn by_id<'a>(items: &'a [ManifestItem], id: &str) -> &'a ManifestItem {
    items.iter().find(|i| i.id == id).unwrap()
}

#[test]
fn test_basic_manifest() {
    let xml = r#"<package xmlns="http://www.idpf.org/2007/opf">
            <manifest>
                <item id="ch1" href="chapter1.xhtml" media-type="application/xhtml+xml"/>
                <item id="css" href="style.css" media-type="text/css"/>
                <item id="img1" href="cover.jpg" media-type="image/jpeg" properties="cover-image"/>
            </manifest>
        </package>"#;
    let items = parse_from_xml(xml);
    assert_eq!(items.len(), 3);
    assert_eq!(by_id(&items, "ch1").href, "chapter1.xhtml");
    assert_eq!(by_id(&items, "css").media_type, "text/css");
    assert_eq!(by_id(&items, "img1").properties.as_deref(), Some("cover-image"));
}

#[test]
fn test_nav_item() {
    let xml = r#"<package xmlns="http://www.idpf.org/2007/opf">
            <manifest>
                <item id="nav" href="nav.xhtml" media-type="application/xhtml+xml" properties="nav"/>
            </manifest>
        </package>"#;
    let items = parse_from_xml(xml);
    assert_eq!(by_id(&items, "nav").properties.as_deref(), Some("nav"));
}

#[test]
fn later_declaration_of_an_id_replaces_the_earlier() {
    let xml = r#"<package><manifest>
        <item id="a" href="one.xhtml"/>
        <item id="b" href="two.xhtml" media-overlay="mo" fallback="fb"/>
        <item id="a" href="three.xhtml"/>
        <item href="no-id.xhtml"/>
        <item id="c"/>
    </manifest></package>"#;
    let items = parse_from_xml(xml);
    assert_eq!(items.len(), 2);
    assert_eq!(items[0].id, "a");
    assert_eq!(items[0].href, "three.xhtml");
    assert_eq!(items[0].media_type, "");
    assert_eq!(items[1].media_overlay.as_deref(), Some("mo"));
    assert_eq!(items[1].fallback.as_deref(), Some("fb"));
}
