use fast_ebook::nav::parse_nav;
use fast_ebook::ncx::parse_ncx;

#[test]
fn test_basic_ncx() {
    let xml = r#"<?xml version="1.0" encoding="UTF-8"?>
        <ncx xmlns="http://www.daisy.org/z3986/2005/ncx/">
          <navMap>
            <navPoint id="np1" playOrder="1">
              <navLabel><text>Chapter 1</text></navLabel>
              <content src="chapter1.xhtml"/>
            </navPoint>
            <navPoint id="np2" playOrder="2">
              <navLabel><text>Chapter 2</text></navLabel>
              <content src="chapter2.xhtml"/>
            </navPoint>
          </navMap>
        </ncx>"#;
    let entries = parse_ncx(xml).unwrap();
    assert_eq!(entries.len(), 2);
    assert_eq!(entries[0].title, "Chapter 1");
    assert_eq!(entries[0].href, "chapter1.xhtml");
    assert_eq!(entries[1].title, "Chapter 2");
}

#[test]
fn test_nested_ncx() {
    let xml = r#"<?xml version="1.0" encoding="UTF-8"?>
        <ncx xmlns="http://www.daisy.org/z3986/2005/ncx/">
          <navMap>
            <navPoint id="part1" playOrder="1">
              <navLabel><text>Part 1</text></navLabel>
              <content src="part1.xhtml"/>
              <navPoint id="ch1" playOrder="2">
                <navLabel><text>Chapter 1</text></navLabel>
                <content src="chapter1.xhtml"/>
              </navPoint>
              <navPoint id="ch2" playOrder="3">
                <navLabel><text>Chapter 2</text></navLabel>
                <content src="chapter2.xhtml"/>
              </navPoint>
            </navPoint>
          </navMap>
        </ncx>"#;
    let entries = parse_ncx(xml).unwrap();
    assert_eq!(entries.len(), 1);
    assert_eq!(entries[0].title, "Part 1");
    assert_eq!(entries[0].children.len(), 2);
    assert_eq!(entries[0].children[0].title, "Chapter 1");
}

#[test]
fn test_empty_navmap() {
    let xml = r#"<?xml version="1.0"?>
        <ncx xmlns="http://www.daisy.org/z3986/2005/ncx/">
          <navMap/>
        </ncx>"#;
    let entries = parse_ncx(xml).unwrap();
    assert!(entries.is_empty());
}

#[test]
fn test_basic_nav() {
    let xhtml = r#"<?xml version="1.0" encoding="UTF-8"?>
        <html xmlns="http://www.w3.org/1999/xhtml" xmlns:epub="http://www.idpf.org/2007/ops">
        <body>
          <nav epub:type="toc">
            <ol>
              <li><a href="chapter1.xhtml">Chapter 1</a></li>
              <li><a href="chapter2.xhtml">Chapter 2</a></li>
            </ol>
          </nav>
        </body>
        </html>"#;
    let entries = parse_nav(xhtml).unwrap();
    assert_eq!(entries.len(), 2);
    assert_eq!(entries[0].title, "Chapter 1");
    assert_eq!(entries[0].href, "chapter1.xhtml");
}

#[test]
fn test_nested_nav() {
    let xhtml = r#"<?xml version="1.0" encoding="UTF-8"?>
        <html xmlns="http://www.w3.org/1999/xhtml" xmlns:epub="http://www.idpf.org/2007/ops">
        <body>
          <nav epub:type="toc">
            <ol>
              <li>
                <a href="part1.xhtml">Part 1</a>
                <ol>
                  <li><a href="ch1.xhtml">Chapter 1</a></li>
                  <li><a href="ch2.xhtml">Chapter 2</a></li>
                </ol>
              </li>
            </ol>
          </nav>
        </body>
        </html>"#;
    let entries = parse_nav(xhtml).unwrap();
    assert_eq!(entries.len(), 1);
    assert_eq!(entries[0].title, "Part 1");
    assert_eq!(entries[0].children.len(), 2);
    assert_eq!(entries[0].children[0].title, "Chapter 1");
}

#[test]
fn test_nav_with_span_heading() {
    let xhtml = r#"<?xml version="1.0" encoding="UTF-8"?>
        <html xmlns="http://www.w3.org/1999/xhtml" xmlns:epub="http://www.idpf.org/2007/ops">
        <body>
          <nav epub:type="toc">
            <ol>
              <li>
                <span>Section</span>
                <ol>
                  <li><a href="ch1.xhtml">Chapter 1</a></li>
                </ol>
              </li>
            </ol>
          </nav>
        </body>
        </html>"#;
    let entries = parse_nav(xhtml).unwrap();
    assert_eq!(entries[0].title, "Section");
    assert!(entries[0].href.is_empty());
    assert_eq!(entries[0].children.len(), 1);
}

#[test]
fn nav_titles_gather_nested_text_trimmed() {
    let xhtml = r#"<html xmlns:epub="http://www.idpf.org/2007/ops"><body>
        <nav epub:type="landmarks"><ol><li><a href="x">Not this</a></li></ol></nav>
        <nav epub:type="toc"><ol><li><a href="c.xhtml">  <span>Big</span> <b>Title</b>  </a></li></ol></nav>
    </body></html>"#;
    let entries = parse_nav(xhtml).unwrap();
    assert_eq!(entries.len(), 1);
    assert_eq!(entries[0].title, "Big Title");
}

#[test]
fn nav_falls_back_to_any_type_attribute() {
    let xhtml = r#"<html><body><nav type="toc"><ol><li><a href="a.xhtml">A</a></li></ol></nav></body></html>"#;
    let entries = parse_nav(xhtml).unwrap();
    assert_eq!(entries[0].href, "a.xhtml");
}

#[test]
fn toc_nesting_is_capped() {
    let mut xml = String::from("<ncx><navMap>");
    for i in 0..120 {
        xml.push_str(&format!("<navPoint><navLabel><text>L{i}</text></navLabel><content src=\"c{i}\"/>"));
    }
    for _ in 0..120 {
        xml.push_str("</navPoint>");
    }
    xml.push_str("</navMap></ncx>");
    let entries = parse_ncx(&xml).unwrap();
    let mut depth = 0;
    let mut level = &entries;
    while let Some(first) = level.first() {
        depth += 1;
        level = &first.children;
    }
    assert_eq!(depth, 100);
}

#[test]
fn malformed_toc_documents_are_xml_errors() {
    assert!(parse_ncx("<ncx>").is_err());
    assert!(parse_nav("<html").is_err());
}
