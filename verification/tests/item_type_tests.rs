use fast_ebook::item_type::{guess_media_type, ItemType};

#[test]
fn test_xhtml_is_document() {
    assert_eq!(
        ItemType::from_media_type("application/xhtml+xml", None),
        ItemType::Document
    );
}

#[test]
fn test_css_is_style() {
    assert_eq!(ItemType::from_media_type("text/css", None), ItemType::Style);
}

#[test]
fn test_jpeg_is_image() {
    assert_eq!(
        ItemType::from_media_type("image/jpeg", None),
        ItemType::Image
    );
}

#[test]
fn test_svg_is_vector() {
    assert_eq!(
        ItemType::from_media_type("image/svg+xml", None),
        ItemType::Vector
    );
}

#[test]
fn test_ncx_is_navigation() {
    assert_eq!(
        ItemType::from_media_type("application/x-dtbncx+xml", None),
        ItemType::Navigation
    );
}

#[test]
fn test_cover_image_property_overrides() {
    assert_eq!(
        ItemType::from_media_type("image/jpeg", Some("cover-image")),
        ItemType::Cover
    );
}

#[test]
fn test_nav_property_overrides() {
    assert_eq!(
        ItemType::from_media_type("application/xhtml+xml", Some("nav")),
        ItemType::Navigation
    );
}

#[test]
fn test_font_types() {
    assert_eq!(ItemType::from_media_type("font/otf", None), ItemType::Font);
    assert_eq!(
        ItemType::from_media_type("application/font-woff", None),
        ItemType::Font
    );
    assert_eq!(
        ItemType::from_media_type("application/vnd.ms-opentype", None),
        ItemType::Font
    );
}

#[test]
fn test_audio_video() {
    assert_eq!(
        ItemType::from_media_type("audio/mpeg", None),
        ItemType::Audio
    );
    assert_eq!(
        ItemType::from_media_type("video/mp4", None),
        ItemType::Video
    );
}

#[test]
fn test_unknown() {
    assert_eq!(
        ItemType::from_media_type("application/octet-stream", None),
        ItemType::Unknown
    );
}

#[test]
fn type_codes_round_trip() {
    for code in 0u8..=12 {
        let t = ItemType::from_u8(code);
        assert_eq!(ItemType::from_u8(t.to_u8()), t);
    }
    assert_eq!(ItemType::from_u8(1), ItemType::Image);
    assert_eq!(ItemType::Image.to_u8(), 1);
    assert_eq!(ItemType::from_u8(200), ItemType::Unknown);
}

#[test]
fn guesses_media_types_from_extensions() {
    assert_eq!(guess_media_type("cover.JPG"), "image/jpeg");
    assert_eq!(guess_media_type("chapter.xhtml"), "application/xhtml+xml");
    assert_eq!(guess_media_type("style.css"), "text/css");
    assert_eq!(guess_media_type("noext"), "application/octet-stream");
}
