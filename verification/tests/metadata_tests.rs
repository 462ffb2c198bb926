use fast_ebook::metadata::{namespace_prefix, parse_metadata, MetadataMap};
use fast_ebook::xml::parse_document;

fn parse_metadata_from_xml(xml: &str) -> MetadataMap {
    let doc = parse_document(xml).unwrap();
    let metadata_node = doc.find_named(0, "metadata").unwrap();
    parse_metadata(&doc, metadata_node)
}

#[test]
fn test_dc_title() {
    let xml = r#"<package xmlns="http://www.idpf.org/2007/opf">
            <metadata xmlns:dc="http://purl.org/dc/elements/1.1/">
                <dc:title>Test Book</dc:title>
            </metadata>
        </package>"#;
    let meta = parse_metadata_from_xml(xml);
    let titles = meta.get("DC", "title").unwrap();
    assert_eq!(titles.len(), 1);
    assert_eq!(titles[0].value, "Test Book");
}

#[test]
fn test_dc_creator_with_attributes() {
    let xml = r#"<package xmlns="http://www.idpf.org/2007/opf" xmlns:opf="http://www.idpf.org/2007/opf">
            <metadata xmlns:dc="http://purl.org/dc/elements/1.1/">
                <dc:creator opf:role="aut" opf:file-as="Doe, John">John Doe</dc:creator>
            </metadata>
        </package>"#;
    let meta = parse_metadata_from_xml(xml);
    let creators = meta.get("DC", "creator").unwrap();
    assert_eq!(creators[0].value, "John Doe");
    assert_eq!(creators[0].attribute("opf:role"), Some("aut"));
    assert_eq!(creators[0].attribute("opf:file-as"), Some("Doe, John"));
}

#[test]
fn test_multiple_dc_fields() {
    let xml = r#"<package xmlns="http://www.idpf.org/2007/opf">
            <metadata xmlns:dc="http://purl.org/dc/elements/1.1/">
                <dc:title>Test</dc:title>
                <dc:language>en</dc:language>
                <dc:identifier id="uid">test-123</dc:identifier>
            </metadata>
        </package>"#;
    let meta = parse_metadata_from_xml(xml);
    assert_eq!(meta.get("DC", "title").unwrap()[0].value, "Test");
    assert_eq!(meta.get("DC", "language").unwrap()[0].value, "en");
    assert_eq!(meta.get("DC", "identifier").unwrap()[0].value, "test-123");
}

#[test]
fn test_opf_meta_epub2() {
    let xml = r#"<package xmlns="http://www.idpf.org/2007/opf">
            <metadata xmlns:dc="http://purl.org/dc/elements/1.1/">
                <dc:title>Test</dc:title>
                <meta name="cover" content="cover-image"/>
            </metadata>
        </package>"#;
    let meta = parse_metadata_from_xml(xml);
    assert_eq!(meta.get("OPF", "cover").unwrap()[0].value, "cover-image");
}

#[test]
fn test_opf_meta_epub3() {
    let xml = r#"<package xmlns="http://www.idpf.org/2007/opf">
            <metadata xmlns:dc="http://purl.org/dc/elements/1.1/">
                <dc:title>Test</dc:title>
                <meta property="dcterms:modified">2024-01-01T00:00:00Z</meta>
            </metadata>
        </package>"#;
    let meta = parse_metadata_from_xml(xml);
    assert_eq!(
        meta.get("OPF", "dcterms:modified").unwrap()[0].value,
        "2024-01-01T00:00:00Z"
    );
}

#[test]
fn values_append_in_document_order() {
    let xml = r#"<package><metadata xmlns:dc="http://purl.org/dc/elements/1.1/">
        <dc:creator>First</dc:creator>
        <other>ignored</other>
        <dc:creator xml:lang="fr">Second</dc:creator>
        <meta property="x" content="from content"/>
        <meta name="only-name"/>
    </metadata></package>"#;
    let meta = parse_metadata_from_xml(xml);
    let creators = meta.get("DC", "creator").unwrap();
    assert_eq!(creators.len(), 2);
    assert_eq!(creators[1].value, "Second");
    assert_eq!(creators[1].attribute("xml:lang"), Some("fr"));
    assert_eq!(meta.get("OPF", "x").unwrap()[0].value, "from content");
    assert!(meta.get("OPF", "only-name").is_none());
    assert!(meta.get("DC", "other").is_none());
}

#[test]
fn namespace_prefixes() {
    assert_eq!(namespace_prefix("http://www.idpf.org/2007/opf"), "opf");
    assert_eq!(namespace_prefix("http://www.w3.org/XML/1998/namespace"), "xml");
    assert_eq!(namespace_prefix("urn:other"), "ns");
}

#[test]
fn metadata_map_set_get_remove() {
    let mut m = MetadataMap::new();
    m.put_values("DC", "title", Vec::new());
    assert_eq!(m.get("DC", "title").map(|v| v.len()), Some(0));
    assert_eq!(m.first_value("DC", "title"), None);
    m.remove_field("DC", "title");
    assert!(m.get("DC", "title").is_none());
}
