//! Classification of EPUB items by media type.
use vstd::prelude::*;
use crate::text;
use crate::text::{chars_of, fold_eq_exec, last_index_of_before_exec, str_contains, str_eq, str_starts_with};

verus! {

/// The kind of an EPUB item.
#[derive(Debug, Clone, Copy, PartialEq, Eq, Structural, Hash)]
pub enum ItemType {
    Unknown,
    Image,
    Style,
    Script,
    Navigation,
    Vector,
    Font,
    Video,
    Audio,
    Document,
    Cover,
    Smil,
}

/// The kind of an item with media type `mt` and manifest properties `props`:
/// the properties `cover-image` and `nav` decide first, then the media type.
pub open spec fn item_type_of(mt: Seq<char>, props: Option<Seq<char>>) -> ItemType {
    if props matches Some(p) && text::contains(p, "cover-image"@) {
        ItemType::Cover
    } else if props matches Some(p) && text::contains(p, "nav"@) {
        ItemType::Navigation
    } else if mt == "application/x-dtbncx+xml"@ {
        ItemType::Navigation
    } else if mt == "application/xhtml+xml"@ || mt == "text/html"@ {
        ItemType::Document
    } else if mt == "text/css"@ {
        ItemType::Style
    } else if mt == "application/javascript"@ || mt == "text/javascript"@ || mt
        == "application/ecmascript"@ {
        ItemType::Script
    } else if mt == "image/svg+xml"@ {
        ItemType::Vector
    } else if text::starts_with(mt, "image/"@) {
        ItemType::Image
    } else if text::starts_with(mt, "font/"@) || text::starts_with(mt, "application/font-"@) || mt
        == "application/x-font-ttf"@ || mt == "application/x-font-opentype"@ || mt
        == "application/vnd.ms-opentype"@ {
        ItemType::Font
    } else if text::starts_with(mt, "video/"@) {
        ItemType::Video
    } else if text::starts_with(mt, "audio/"@) {
        ItemType::Audio
    } else if mt == "application/smil+xml"@ {
        ItemType::Smil
    } else {
        ItemType::Unknown
    }
}

/// The number that stands for each kind (0 for `Unknown` up to 11 for `Smil`).
pub open spec fn item_type_code(t: ItemType) -> u8 {
    match t {
        ItemType::Unknown => 0,
        ItemType::Image => 1,
        ItemType::Style => 2,
        ItemType::Script => 3,
        ItemType::Navigation => 4,
        ItemType::Vector => 5,
        ItemType::Font => 6,
        ItemType::Video => 7,
        ItemType::Audio => 8,
        ItemType::Document => 9,
        ItemType::Cover => 10,
        ItemType::Smil => 11,
    }
}

/// The kind that a number stands for; numbers above 11 stand for `Unknown`.
pub open spec fn item_type_from_code(v: u8) -> ItemType {
    if v == 1 {
        ItemType::Image
    } else if v == 2 {
        ItemType::Style
    } else if v == 3 {
        ItemType::Script
    } else if v == 4 {
        ItemType::Navigation
    } else if v == 5 {
        ItemType::Vector
    } else if v == 6 {
        ItemType::Font
    } else if v == 7 {
        ItemType::Video
    } else if v == 8 {
        ItemType::Audio
    } else if v == 9 {
        ItemType::Document
    } else if v == 10 {
        ItemType::Cover
    } else if v == 11 {
        ItemType::Smil
    } else {
        ItemType::Unknown
    }
}

impl ItemType {
    /// Determine item type from media-type and optional OPF properties.
    pub fn from_media_type(media_type: &str, properties: Option<&str>) -> (res: Self)
        ensures
            res == item_type_of(media_type@, text::opt_view(properties)),
    {
        if let Some(props) = properties {
            if str_contains(props, "cover-image") {
                return ItemType::Cover;
            }
            if str_contains(props, "nav") {
                return ItemType::Navigation;
            }
        }
        let m = media_type;
        if str_eq(m, "application/x-dtbncx+xml") {
            ItemType::Navigation
        } else if str_eq(m, "application/xhtml+xml") || str_eq(m, "text/html") {
            ItemType::Document
        } else if str_eq(m, "text/css") {
            ItemType::Style
        } else if str_eq(m, "application/javascript") || str_eq(m, "text/javascript") || str_eq(
            m,
            "application/ecmascript",
        ) {
            ItemType::Script
        } else if str_eq(m, "image/svg+xml") {
            ItemType::Vector
        } else if str_starts_with(m, "image/") {
            ItemType::Image
        } else if str_starts_with(m, "font/") || str_starts_with(m, "application/font-") || str_eq(
            m,
            "application/x-font-ttf",
        ) || str_eq(m, "application/x-font-opentype") || str_eq(m, "application/vnd.ms-opentype") {
            ItemType::Font
        } else if str_starts_with(m, "video/") {
            ItemType::Video
        } else if str_starts_with(m, "audio/") {
            ItemType::Audio
        } else if str_eq(m, "application/smil+xml") {
            ItemType::Smil
        } else {
            ItemType::Unknown
        }
    }

    /// Convert a u8 constant back to an ItemType.
    pub fn from_u8(val: u8) -> (res: Self)
        ensures
            res == item_type_from_code(val),
    {
        match val {
            1 => ItemType::Image,
            2 => ItemType::Style,
            3 => ItemType::Script,
            4 => ItemType::Navigation,
            5 => ItemType::Vector,
            6 => ItemType::Font,
            7 => ItemType::Video,
            8 => ItemType::Audio,
            9 => ItemType::Document,
            10 => ItemType::Cover,
            11 => ItemType::Smil,
            _ => ItemType::Unknown,
        }
    }

    /// The u8 constant of this ItemType.
    pub fn to_u8(self) -> (res: u8)
        ensures
            res == item_type_code(self),
    {
        match self {
            ItemType::Unknown => 0,
            ItemType::Image => 1,
            ItemType::Style => 2,
            ItemType::Script => 3,
            ItemType::Navigation => 4,
            ItemType::Vector => 5,
            ItemType::Font => 6,
            ItemType::Video => 7,
            ItemType::Audio => 8,
            ItemType::Document => 9,
            ItemType::Cover => 10,
            ItemType::Smil => 11,
        }
    }
}

/// Converting a kind to its number and back gives the kind again.
pub proof fn lemma_item_type_code_roundtrip(t: ItemType)
    ensures
        item_type_from_code(item_type_code(t)) == t,
{
}

/// Every number up to 11 is the number of exactly the kind it is converted to.
pub proof fn lemma_item_type_code_onto(v: u8)
    requires
        v <= 11,
    ensures
        item_type_code(item_type_from_code(v)) == v,
{
}

/// The part of a file name after its last `.`, or the whole name if it has none.
pub open spec fn extension_of(name: Seq<char>) -> Seq<char> {
    match text::last_index_of_before(name, '.', name.len() as int) {
        Some(i) => name.subrange(i + 1, name.len() as int),
        None => name,
    }
}

/// The media type guessed for a file extension, compared without letter case.
pub open spec fn media_type_for_extension(ext: Seq<char>) -> Seq<char> {
    if text::fold_eq(ext, "xhtml"@) || text::fold_eq(ext, "html"@) || text::fold_eq(ext, "htm"@) {
        "application/xhtml+xml"@
    } else if text::fold_eq(ext, "css"@) {
        "text/css"@
    } else if text::fold_eq(ext, "js"@) {
        "application/javascript"@
    } else if text::fold_eq(ext, "jpg"@) || text::fold_eq(ext, "jpeg"@) {
        "image/jpeg"@
    } else if text::fold_eq(ext, "png"@) {
        "image/png"@
    } else if text::fold_eq(ext, "gif"@) {
        "image/gif"@
    } else if text::fold_eq(ext, "svg"@) {
        "image/svg+xml"@
    } else if text::fold_eq(ext, "webp"@) {
        "image/webp"@
    } else if text::fold_eq(ext, "otf"@) {
        "font/otf"@
    } else if text::fold_eq(ext, "ttf"@) {
        "font/ttf"@
    } else if text::fold_eq(ext, "woff"@) {
        "font/woff"@
    } else if text::fold_eq(ext, "woff2"@) {
        "font/woff2"@
    } else if text::fold_eq(ext, "mp3"@) {
        "audio/mpeg"@
    } else if text::fold_eq(ext, "mp4"@) {
        "video/mp4"@
    } else if text::fold_eq(ext, "ncx"@) {
        "application/x-dtbncx+xml"@
    } else if text::fold_eq(ext, "smil"@) {
        "application/smil+xml"@
    } else {
        "application/octet-stream"@
    }
}

/// Guess MIME type from a file extension.
pub fn guess_media_type(filename: &str) -> (res: String)
    ensures
        res@ == media_type_for_extension(extension_of(filename@)),
{
    let name = chars_of(filename);
    let n = name.len();
    let ext: Vec<char> = match last_index_of_before_exec(name.as_slice(), '.', n) {
        Some(i) => {
            let mut e: Vec<char> = Vec::new();
            let mut k = i + 1;
            while k < n
                invariant
                    i + 1 <= k <= n,
                    n == name@.len(),
                    e@ == name@.subrange(i + 1, k as int),
                decreases n - k,
            {
                e.push(name[k]);
                k += 1;
            }
            e
        },
        None => name.clone(),
    };
    let e = ext.as_slice();
    let mt = if fold_eq_exec(e, "xhtml") || fold_eq_exec(e, "html") || fold_eq_exec(e, "htm") {
        "application/xhtml+xml"
    } else if fold_eq_exec(e, "css") {
        "text/css"
    } else if fold_eq_exec(e, "js") {
        "application/javascript"
    } else if fold_eq_exec(e, "jpg") || fold_eq_exec(e, "jpeg") {
        "image/jpeg"
    } else if fold_eq_exec(e, "png") {
        "image/png"
    } else if fold_eq_exec(e, "gif") {
        "image/gif"
    } else if fold_eq_exec(e, "svg") {
        "image/svg+xml"
    } else if fold_eq_exec(e, "webp") {
        "image/webp"
    } else if fold_eq_exec(e, "otf") {
        "font/otf"
    } else if fold_eq_exec(e, "ttf") {
        "font/ttf"
    } else if fold_eq_exec(e, "woff") {
        "font/woff"
    } else if fold_eq_exec(e, "woff2") {
        "font/woff2"
    } else if fold_eq_exec(e, "mp3") {
        "audio/mpeg"
    } else if fold_eq_exec(e, "mp4") {
        "video/mp4"
    } else if fold_eq_exec(e, "ncx") {
        "application/x-dtbncx+xml"
    } else if fold_eq_exec(e, "smil") {
        "application/smil+xml"
    } else {
        "application/octet-stream"
    };
    mt.to_owned()
}


/// A font media type: `font/*`, `application/font-*`, or one of the older
/// names `application/x-font-ttf`, `application/x-font-opentype` and
/// `application/vnd.ms-opentype`.
pub open spec fn is_font_media_type(mt: Seq<char>) -> bool {
    ||| (mt.len() >= 5 && mt.subrange(0, 5) == seq!['f', 'o', 'n', 't', '/'])
    ||| (mt.len() >= 17 && mt.subrange(0, 17) == "application/font-"@)
    ||| mt == "application/x-font-ttf"@
    ||| mt == "application/x-font-opentype"@
    ||| mt == "application/vnd.ms-opentype"@
}

/// Every font media type classifies as a font, unless the manifest
/// properties name a cover image or a navigation document.
pub proof fn lemma_fonts_are_fonts(mt: Seq<char>, props: Option<Seq<char>>)
    requires
        is_font_media_type(mt),
        props matches Some(p) ==> !text::contains(p, "cover-image"@) && !text::contains(p, "nav"@),
    ensures
        item_type_of(mt, props) == ItemType::Font,
{
    reveal_strlit("font/");
    reveal_strlit("application/font-");
    reveal_strlit("application/x-font-ttf");
    reveal_strlit("application/x-font-opentype");
    reveal_strlit("application/vnd.ms-opentype");
    reveal_strlit("application/x-dtbncx+xml");
    reveal_strlit("application/xhtml+xml");
    reveal_strlit("text/html");
    reveal_strlit("text/css");
    reveal_strlit("application/javascript");
    reveal_strlit("text/javascript");
    reveal_strlit("application/ecmascript");
    reveal_strlit("image/svg+xml");
    reveal_strlit("image/");
    if mt.len() >= 5 && mt.subrange(0, 5) == seq!['f', 'o', 'n', 't', '/'] {
        assert(mt[0] == mt.subrange(0, 5)[0]);
        assert(mt[0] == 'f');
        assert(!text::starts_with(mt, "image/"@)) by {
            if text::starts_with(mt, "image/"@) {
                assert(mt.subrange(0, 6)[0] == mt[0]);
            }
        }
        assert(mt != "application/x-dtbncx+xml"@) by {
            if mt == "application/x-dtbncx+xml"@ {
                assert(mt[0] == "application/x-dtbncx+xml"@[0]);
            }
        }
        assert(mt != "application/xhtml+xml"@) by {
            if mt == "application/xhtml+xml"@ {
                assert(mt[0] == "application/xhtml+xml"@[0]);
            }
        }
        assert(mt != "text/html"@) by {
            if mt == "text/html"@ {
                assert(mt[0] == "text/html"@[0]);
            }
        }
        assert(mt != "text/css"@) by {
            if mt == "text/css"@ {
                assert(mt[0] == "text/css"@[0]);
            }
        }
        assert(mt != "application/javascript"@) by {
            if mt == "application/javascript"@ {
                assert(mt[0] == "application/javascript"@[0]);
            }
        }
        assert(mt != "text/javascript"@) by {
            if mt == "text/javascript"@ {
                assert(mt[0] == "text/javascript"@[0]);
            }
        }
        assert(mt != "application/ecmascript"@) by {
            if mt == "application/ecmascript"@ {
                assert(mt[0] == "application/ecmascript"@[0]);
            }
        }
        assert(mt != "image/svg+xml"@) by {
            if mt == "image/svg+xml"@ {
                assert(mt[0] == "image/svg+xml"@[0]);
            }
        }
        assert(text::starts_with(mt, "font/"@)) by {
            assert(mt.subrange(0, 5) =~= "font/"@);
        }
        assert(item_type_of(mt, props) == ItemType::Font);
    } else if mt.len() >= 17 && mt.subrange(0, 17) == "application/font-"@ {
        assert(mt[0] == mt.subrange(0, 17)[0]);
        assert(mt[12] == mt.subrange(0, 17)[12]);
        assert(mt[0] == 'a' && mt[12] == 'f');
        assert(!text::starts_with(mt, "image/"@)) by {
            if text::starts_with(mt, "image/"@) {
                assert(mt.subrange(0, 6)[0] == mt[0]);
            }
        }
        assert(mt != "application/x-dtbncx+xml"@) by {
            if mt == "application/x-dtbncx+xml"@ {
                assert(mt[12] == "application/x-dtbncx+xml"@[12]);
            }
        }
        assert(mt != "application/xhtml+xml"@) by {
            if mt == "application/xhtml+xml"@ {
                assert(mt[12] == "application/xhtml+xml"@[12]);
            }
        }
        assert(mt != "text/html"@) by {
            if mt == "text/html"@ {
                assert(mt[0] == "text/html"@[0]);
            }
        }
        assert(mt != "text/css"@) by {
            if mt == "text/css"@ {
                assert(mt[0] == "text/css"@[0]);
            }
        }
        assert(mt != "application/javascript"@) by {
            if mt == "application/javascript"@ {
                assert(mt[12] == "application/javascript"@[12]);
            }
        }
        assert(mt != "text/javascript"@) by {
            if mt == "text/javascript"@ {
                assert(mt[0] == "text/javascript"@[0]);
            }
        }
        assert(mt != "application/ecmascript"@) by {
            if mt == "application/ecmascript"@ {
                assert(mt[12] == "application/ecmascript"@[12]);
            }
        }
        assert(mt != "image/svg+xml"@) by {
            if mt == "image/svg+xml"@ {
                assert(mt[0] == "image/svg+xml"@[0]);
            }
        }
        assert(text::starts_with(mt, "application/font-"@));
        assert(item_type_of(mt, props) == ItemType::Font);
    } else {
        assert(mt[0] == 'a');
        assert(mt != "application/x-dtbncx+xml"@) by {
            if mt == "application/x-dtbncx+xml"@ {
                assert(mt.len() == "application/x-dtbncx+xml"@.len());
                assert(mt[12] == "application/x-dtbncx+xml"@[12]);
                assert(mt[0] == "application/x-dtbncx+xml"@[0]);
            }
        }
        assert(mt != "application/xhtml+xml"@) by {
            if mt == "application/xhtml+xml"@ {
                assert(mt.len() == "application/xhtml+xml"@.len());
                assert(mt[12] == "application/xhtml+xml"@[12]);
                assert(mt[0] == "application/xhtml+xml"@[0]);
            }
        }
        assert(mt != "text/html"@) by {
            if mt == "text/html"@ {
                assert(mt.len() == "text/html"@.len());
                assert(mt[12] == "text/html"@[12]);
                assert(mt[0] == "text/html"@[0]);
            }
        }
        assert(mt != "text/css"@) by {
            if mt == "text/css"@ {
                assert(mt.len() == "text/css"@.len());
                assert(mt[12] == "text/css"@[12]);
                assert(mt[0] == "text/css"@[0]);
            }
        }
        assert(mt != "application/javascript"@) by {
            if mt == "application/javascript"@ {
                assert(mt.len() == "application/javascript"@.len());
                assert(mt[12] == "application/javascript"@[12]);
                assert(mt[0] == "application/javascript"@[0]);
            }
        }
        assert(mt != "text/javascript"@) by {
            if mt == "text/javascript"@ {
                assert(mt.len() == "text/javascript"@.len());
                assert(mt[12] == "text/javascript"@[12]);
                assert(mt[0] == "text/javascript"@[0]);
            }
        }
        assert(mt != "application/ecmascript"@) by {
            if mt == "application/ecmascript"@ {
                assert(mt.len() == "application/ecmascript"@.len());
                assert(mt[12] == "application/ecmascript"@[12]);
                assert(mt[0] == "application/ecmascript"@[0]);
            }
        }
        assert(mt != "image/svg+xml"@) by {
            if mt == "image/svg+xml"@ {
                assert(mt.len() == "image/svg+xml"@.len());
                assert(mt[12] == "image/svg+xml"@[12]);
                assert(mt[0] == "image/svg+xml"@[0]);
            }
        }

        assert(!text::starts_with(mt, "image/"@)) by {
            if text::starts_with(mt, "image/"@) {
                assert(mt.subrange(0, 6)[0] == mt[0]);
            }
        }
    }
}
} // verus!
