//! The operations that the Python binding offers on books and items,
//! on plain values.
use vstd::prelude::*;
use std::sync::Arc;
use crate::item_type::{ItemType, guess_media_type, item_type_code, item_type_from_code, media_type_for_extension, extension_of};
use crate::metadata::{ItemView, attrs_view, field_values, first_value, items_view, put_values};
use crate::model::{EpubBook, EpubItem, clone_attrs, share};
use crate::ncx::TocEntry;
use crate::spine::SpineItem;
use crate::text;
use crate::text::{char_is_ws, chars_of, push_char, push_str, str_contains, text_of_bytes, utf8_lossy};
use crate::writer::{decimal, push_decimal};

verus! {

// ---------------------------------------------------------------------------
// Text of a document
// ---------------------------------------------------------------------------

/// The characters of `s` outside tags, reading from a state inside a tag
/// or not: `<` opens a tag and `>` closes one.
pub open spec fn tag_free(s: Seq<char>, in_tag: bool) -> Seq<char>
    decreases s.len(),
{
    if s.len() == 0 {
        Seq::empty()
    } else if s[0] == '<' {
        tag_free(s.drop_first(), true)
    } else if s[0] == '>' {
        tag_free(s.drop_first(), false)
    } else if !in_tag {
        seq![s[0]] + tag_free(s.drop_first(), in_tag)
    } else {
        tag_free(s.drop_first(), in_tag)
    }
}

/// `s` with each run of white space replaced by one space, after a state
/// that follows white space or not.
pub open spec fn squeeze_ws(s: Seq<char>, after_ws: bool) -> Seq<char>
    decreases s.len(),
{
    if s.len() == 0 {
        Seq::empty()
    } else if text::is_ws(s[0]) {
        if after_ws {
            squeeze_ws(s.drop_first(), true)
        } else {
            seq![' '] + squeeze_ws(s.drop_first(), true)
        }
    } else {
        seq![s[0]] + squeeze_ws(s.drop_first(), false)
    }
}

/// The text of an HTML document: tags removed, white space squeezed, the
/// ends trimmed.
pub open spec fn stripped_text(html: Seq<char>) -> Seq<char> {
    text::trim(squeeze_ws(tag_free(html, false), false))
}

/// The text of a document neither starts nor ends with white space.
pub proof fn lemma_stripped_text_trimmed(html: Seq<char>)
    ensures
        stripped_text(html).len() > 0 ==> !text::is_ws(stripped_text(html)[0]) && !text::is_ws(
            stripped_text(html).last(),
        ),
{
    text::lemma_trim_ends(squeeze_ws(tag_free(html, false), false));
}

/// Simple HTML tag stripper for `get_text`. Extracts text content only.
pub fn strip_html_tags(html: &str) -> (res: String)
    ensures
        res@ == stripped_text(html@),
{
    let cs = chars_of(html);
    let n = cs.len();
    let mut result: Vec<char> = Vec::new();
    let mut in_tag = false;
    let mut i: usize = 0;
    assert(cs@.subrange(0, n as int) =~= html@);
    assert(result@ + tag_free(html@, false) =~= tag_free(html@, false));
    while i < n
        invariant
            i <= n,
            n == cs@.len(),
            tag_free(html@, false) == result@ + tag_free(cs@.subrange(i as int, n as int), in_tag),
        decreases n - i,
    {
        let ghost rest = cs@.subrange(i as int, n as int);
        assert(rest.drop_first() =~= cs@.subrange(i + 1, n as int));
        let c = cs[i];
        if c == '<' {
            in_tag = true;
        } else if c == '>' {
            in_tag = false;
        } else if !in_tag {
            let ghost before = result@;
            result.push(c);
            assert(before + (seq![c] + tag_free(cs@.subrange(i + 1, n as int), in_tag)) =~= result@
                + tag_free(cs@.subrange(i + 1, n as int), in_tag));
        }
        i += 1;
    }
    proof {
        assert(cs@.subrange(n as int, n as int) =~= Seq::<char>::empty());
        assert(result@ =~= tag_free(html@, false));
    }
    let m = result.len();
    let mut squeezed = String::new();
    let mut prev_ws = false;
    let mut j: usize = 0;
    assert(result@.subrange(0, m as int) =~= result@);
    assert(squeezed@ + squeeze_ws(result@, false) =~= squeeze_ws(result@, false));
    while j < m
        invariant
            j <= m,
            m == result@.len(),
            squeeze_ws(result@, false) == squeezed@ + squeeze_ws(result@.subrange(j as int, m as int), prev_ws),
        decreases m - j,
    {
        let ghost rest = result@.subrange(j as int, m as int);
        assert(rest.drop_first() =~= result@.subrange(j + 1, m as int));
        let c = result[j];
        let ghost before = squeezed@;
        if char_is_ws(c) {
            if !prev_ws {
                push_char(&mut squeezed, ' ');
                assert(before + (seq![' '] + squeeze_ws(result@.subrange(j + 1, m as int), true)) =~= squeezed@
                    + squeeze_ws(result@.subrange(j + 1, m as int), true));
            }
            prev_ws = true;
        } else {
            push_char(&mut squeezed, c);
            assert(before + (seq![c] + squeeze_ws(result@.subrange(j + 1, m as int), false)) =~= squeezed@
                + squeeze_ws(result@.subrange(j + 1, m as int), false));
            prev_ws = false;
        }
        j += 1;
    }
    proof {
        assert(result@.subrange(0, m as int) =~= result@);
        assert(result@.subrange(m as int, m as int) =~= Seq::<char>::empty());
        assert(squeezed@ =~= squeeze_ws(result@, false));
    }
    crate::markdown::trim_str(squeezed.as_str())
}

impl EpubItem {
    /// For document items, the text content with tags stripped; `None` for
    /// every other item.
    pub fn get_text(&self) -> (res: Option<String>)
        ensures
            self.item_type == ItemType::Document ==> (res matches Some(t) && t@ == stripped_text(
                utf8_lossy(self.content_view()),
            )),
            self.item_type != ItemType::Document ==> res is None,
    {
        if self.item_type != ItemType::Document {
            return None;
        }
        let content = self.get_content();
        let html = text_of_bytes(content.as_slice());
        Some(strip_html_tags(html.as_str()))
    }

    /// `EpubItem(id='...', href='...', type=N)`.
    pub fn repr(&self) -> (res: String)
        ensures
            res@ == "EpubItem(id='"@ + self.id@ + "', href='"@ + self.href@ + "', type="@ + decimal(
                item_type_code(self.item_type) as nat,
            ) + ")"@,
    {
        let mut s = "EpubItem(id='".to_owned();
        push_str(&mut s, self.id.as_str());
        push_str(&mut s, "', href='");
        push_str(&mut s, self.href.as_str());
        push_str(&mut s, "', type=");
        push_decimal(&mut s, self.item_type.to_u8() as u64);
        push_str(&mut s, ")");
        s
    }
}

impl TocEntry {
    /// `TocEntry(title='...', href='...')`.
    pub fn repr(&self) -> (res: String)
        ensures
            res@ == "TocEntry(title='"@ + self.title@ + "', href='"@ + self.href@ + "')"@,
    {
        let mut s = "TocEntry(title='".to_owned();
        push_str(&mut s, self.title.as_str());
        push_str(&mut s, "', href='");
        push_str(&mut s, self.href.as_str());
        push_str(&mut s, "')");
        s
    }
}

// ---------------------------------------------------------------------------
// Books
// ---------------------------------------------------------------------------

/// The type that a raw item gets: `nav` in its properties makes it
/// navigation, else `cover-image` makes it the cover, else its type code
/// decides.
pub open spec fn raw_item_type(code: u8, properties: Option<Seq<char>>) -> ItemType {
    match properties {
        Some(p) => if text::contains(p, "nav"@) {
            ItemType::Navigation
        } else if text::contains(p, "cover-image"@) {
            ItemType::Cover
        } else {
            item_type_from_code(code)
        },
        None => item_type_from_code(code),
    }
}

/// The items of the first `n` whose type code is `code`.
pub open spec fn items_with_code(items: Seq<Arc<EpubItem>>, code: u8, n: int) -> Seq<Arc<EpubItem>>
    decreases n,
{
    if n <= 0 || n > items.len() {
        Seq::empty()
    } else {
        let r = items_with_code(items, code, n - 1);
        if item_type_code(items[n - 1].item_type) == code {
            r.push(items[n - 1])
        } else {
            r
        }
    }
}

/// Whether an item's type constant is `code`.
pub open spec fn has_code(code: u8) -> spec_fn(Arc<EpubItem>) -> bool {
    |it: Arc<EpubItem>| item_type_code(it.item_type) == code
}

/// The items of a given type are exactly the book's items of that type
/// code, all of them, in their order: the items filtered by their code.
pub proof fn lemma_items_of_type_are_filtered(items: Seq<Arc<EpubItem>>, code: u8, n: int)
    requires
        0 <= n <= items.len(),
    ensures
        items_with_code(items, code, n) == items.take(n).filter(has_code(code)),
    decreases n,
{
    reveal(Seq::filter);
    if n > 0 {
        lemma_items_of_type_are_filtered(items, code, n - 1);
        assert(items.take(n).drop_last() =~= items.take(n - 1));
        assert(items.take(n).last() == items[n - 1]);
    } else {
        assert(items.take(0) =~= Seq::<Arc<EpubItem>>::empty());
    }
}

impl EpubBook {
    /// The items whose type constant is `item_type`, in order.
    pub fn get_items_of_type(&self, item_type: u8) -> (res: Vec<Arc<EpubItem>>)
        ensures
            res@ == items_with_code(self.items@, item_type, self.items@.len() as int),
            res@ == self.items@.filter(has_code(item_type)),
    {
        let n = self.items.len();
        let mut out: Vec<Arc<EpubItem>> = Vec::new();
        let mut i: usize = 0;
        while i < n
            invariant
                i <= n,
                n == self.items@.len(),
                out@ == items_with_code(self.items@, item_type, i as int),
            decreases n - i,
        {
            if self.items[i].item_type.to_u8() == item_type {
                out.push(share(&self.items[i]));
            }
            i += 1;
        }
        proof {
            lemma_items_of_type_are_filtered(self.items@, item_type, n as int);
            assert(self.items@.take(n as int) =~= self.items@);
        }
        out
    }

    /// The values and attributes stored under `namespace` and `name`, in
    /// order; none when there are none.
    pub fn get_metadata(&self, namespace: &str, name: &str) -> (res: Vec<(String, Vec<(String, String)>)>)
        ensures
            res@.map_values(|e: (String, Vec<(String, String)>)| (e.0@, attrs_view(e.1@))) == match field_values(
                self.metadata@,
                namespace@,
                name@,
            ) {
                Some(v) => v,
                None => Seq::<ItemView>::empty(),
            },
    {
        let mut out: Vec<(String, Vec<(String, String)>)> = Vec::new();
        match self.metadata.get(namespace, name) {
            Some(items) => {
                let n = items.len();
                let mut i: usize = 0;
                while i < n
                    invariant
                        i <= n,
                        n == items@.len(),
                        out@.len() == i,
                        out@.map_values(|e: (String, Vec<(String, String)>)| (e.0@, attrs_view(e.1@)))
                            == items_view(items@).take(i as int),
                    decreases n - i,
                {
                    let ghost before = out@;
                    let entry = (items[i].value.as_str().to_owned(), clone_attrs(&items[i].attributes));
                    assert((entry.0@, attrs_view(entry.1@)) == items_view(items@)[i as int]);
                    out.push(entry);
                    proof {
                        let mv = out@.map_values(|e: (String, Vec<(String, String)>)| (e.0@, attrs_view(e.1@)));
                        let bv = before.map_values(|e: (String, Vec<(String, String)>)| (e.0@, attrs_view(e.1@)));
                        assert forall|k: int| 0 <= k < i + 1 implies #[trigger] mv[k] == items_view(items@).take(i + 1)[k] by {
                            if k < i {
                                assert(out@[k] == before[k]);
                                assert(bv[k] == items_view(items@).take(i as int)[k]);
                            }
                        }
                        assert(mv =~= items_view(items@).take(i + 1));
                    }
                    i += 1;
                }
                proof {
                    assert(items_view(items@).take(n as int) =~= items_view(items@));
                }
            },
            None => {
                assert(out@.map_values(|e: (String, Vec<(String, String)>)| (e.0@, attrs_view(e.1@))) =~= Seq::<
                    ItemView,
                >::empty());
            },
        }
        out
    }

    /// The spine as (idref, linear) pairs.
    pub fn get_spine(&self) -> (res: Vec<(String, bool)>)
        ensures
            res@.len() == self.spine@.len(),
            forall|i: int|
                0 <= i < res@.len() ==> (#[trigger] res@[i]).0@ == self.spine@[i].idref@ && res@[i].1
                    == self.spine@[i].linear,
    {
        let n = self.spine.len();
        let mut out: Vec<(String, bool)> = Vec::new();
        let mut i: usize = 0;
        while i < n
            invariant
                i <= n,
                n == self.spine@.len(),
                out@.len() == i,
                forall|j: int|
                    0 <= j < i ==> (#[trigger] out@[j]).0@ == self.spine@[j].idref@ && out@[j].1
                        == self.spine@[j].linear,
            decreases n - i,
        {
            out.push((self.spine[i].idref.as_str().to_owned(), self.spine[i].linear));
            i += 1;
        }
        out
    }

    /// `EpubBook(title='...')`, with the first DC title or `<untitled>`.
    pub fn repr(&self) -> (res: String)
        ensures
            res@ == "EpubBook(title='"@ + match first_value(self.metadata@, "DC"@, "title"@) {
                Some(t) => t,
                None => "<untitled>"@,
            } + "')"@,
    {
        let title = match self.get_metadata_value("DC", "title") {
            Some(t) => t,
            None => "<untitled>",
        };
        let mut s = "EpubBook(title='".to_owned();
        push_str(&mut s, title);
        push_str(&mut s, "')");
        s
    }

    /// Set the book's unique identifier (DC:identifier).
    pub fn set_identifier(&mut self, identifier: &str)
        ensures
            final(self).metadata@ == put_values(old(self).metadata@, "DC"@, "identifier"@, seq![(identifier@, Seq::empty())]),
            final(self).items == old(self).items,
            final(self).spine == old(self).spine,
            final(self).toc == old(self).toc,
            final(self).version == old(self).version,
    {
        self.set_metadata("DC", "identifier", identifier, Vec::new());
        proof {
            assert(attrs_view(Seq::<(String, String)>::empty()) =~= Seq::empty());
        }
    }

    /// Set the book's title (DC:title).
    pub fn set_title(&mut self, title: &str)
        ensures
            final(self).metadata@ == put_values(old(self).metadata@, "DC"@, "title"@, seq![(title@, Seq::empty())]),
            final(self).items == old(self).items,
            final(self).spine == old(self).spine,
            final(self).toc == old(self).toc,
            final(self).version == old(self).version,
    {
        self.set_metadata("DC", "title", title, Vec::new());
        proof {
            assert(attrs_view(Seq::<(String, String)>::empty()) =~= Seq::empty());
        }
    }

    /// Set the book's language (DC:language).
    pub fn set_language(&mut self, lang: &str)
        ensures
            final(self).metadata@ == put_values(old(self).metadata@, "DC"@, "language"@, seq![(lang@, Seq::empty())]),
            final(self).items == old(self).items,
            final(self).spine == old(self).spine,
            final(self).toc == old(self).toc,
            final(self).version == old(self).version,
    {
        self.set_metadata("DC", "language", lang, Vec::new());
        proof {
            assert(attrs_view(Seq::<(String, String)>::empty()) =~= Seq::empty());
        }
    }

    /// Add an author (DC:creator), with `opf:file-as`, `opf:role` and `id`
    /// attributes for the parts given. Appends, does not replace.
    pub fn add_author(&mut self, name: &str, file_as: Option<&str>, role: Option<&str>, uid: Option<&str>)
        ensures
            final(self).metadata@ == put_values(
                old(self).metadata@,
                "DC"@,
                "creator"@,
                match field_values(old(self).metadata@, "DC"@, "creator"@) {
                    Some(vs) => vs,
                    None => Seq::empty(),
                }.push((name@, author_attrs(text::opt_view(file_as), text::opt_view(role), text::opt_view(uid)))),
            ),
            final(self).items == old(self).items,
            final(self).spine == old(self).spine,
            final(self).toc == old(self).toc,
            final(self).version == old(self).version,
    {
        let mut attrs: Vec<(String, String)> = Vec::new();
        if let Some(fa) = file_as {
            attrs.push(("opf:file-as".to_owned(), fa.to_owned()));
        }
        if let Some(r) = role {
            attrs.push(("opf:role".to_owned(), r.to_owned()));
        }
        if let Some(u) = uid {
            attrs.push(("id".to_owned(), u.to_owned()));
        }
        proof {
            assert(attrs_view(attrs@) =~= author_attrs(text::opt_view(file_as), text::opt_view(role), text::opt_view(uid)));
        }
        self.add_metadata("DC", "creator", name, attrs);
    }

    /// Add a raw item to the book, its type given by a type constant and
    /// overridden by its properties. The properties are not kept.
    pub fn add_item_raw(
        &mut self,
        id: &str,
        href: &str,
        media_type: &str,
        content: Vec<u8>,
        item_type: u8,
        properties: Option<&str>,
    )
        ensures
            final(self).items@.len() == old(self).items@.len() + 1,
            final(self).items@.take(old(self).items@.len() as int) == old(self).items@,
            final(self).items@.last().id@ == id@,
            final(self).items@.last().href@ == href@,
            final(self).items@.last().media_type@ == media_type@,
            final(self).items@.last().item_type == raw_item_type(item_type, text::opt_view(properties)),
            final(self).items@.last().properties is None,
            final(self).items@.last().lazy_source is None,
            final(self).items@.last().content_view() == content@,
            final(self).metadata == old(self).metadata,
            final(self).spine == old(self).spine,
            final(self).toc == old(self).toc,
            final(self).version == old(self).version,
    {
        let mut it = ItemType::from_u8(item_type);
        if let Some(props) = properties {
            if str_contains(props, "nav") {
                it = ItemType::Navigation;
            } else if str_contains(props, "cover-image") {
                it = ItemType::Cover;
            }
        }
        let item = Arc::new(EpubItem::eager(id.to_owned(), href.to_owned(), media_type.to_owned(), it, content));
        self.add_item(item);
        proof {
            assert(self.items@.take(old(self).items@.len() as int) =~= old(self).items@);
        }
    }

    /// Set the cover image: an item `cover-image` of type cover, its media
    /// type guessed from the file name, and the OPF `cover` metadata naming it.
    pub fn set_cover(&mut self, file_name: &str, content: Vec<u8>)
        ensures
            final(self).items@.len() == old(self).items@.len() + 1,
            final(self).items@.take(old(self).items@.len() as int) == old(self).items@,
            final(self).items@.last().id@ == "cover-image"@,
            final(self).items@.last().href@ == file_name@,
            final(self).items@.last().media_type@ == media_type_for_extension(extension_of(file_name@)),
            final(self).items@.last().item_type == ItemType::Cover,
            final(self).items@.last().content_view() == content@,
            final(self).metadata@ == put_values(
                old(self).metadata@,
                "OPF"@,
                "cover"@,
                match field_values(old(self).metadata@, "OPF"@, "cover"@) {
                    Some(vs) => vs,
                    None => Seq::empty(),
                }.push(("cover-image"@, Seq::empty())),
            ),
            final(self).spine == old(self).spine,
            final(self).toc == old(self).toc,
            final(self).version == old(self).version,
    {
        let media_type = guess_media_type(file_name);
        let item = Arc::new(EpubItem::eager("cover-image".to_owned(), file_name.to_owned(), media_type, ItemType::Cover, content));
        self.add_item(item);
        proof {
            assert(self.items@.take(old(self).items@.len() as int) =~= old(self).items@);
        }
        self.add_metadata("OPF", "cover", "cover-image", Vec::new());
        proof {
            assert(attrs_view(Seq::<(String, String)>::empty()) =~= Seq::empty());
        }
    }

    /// Set the table of contents.
    pub fn set_toc(&mut self, entries: Vec<TocEntry>)
        ensures
            final(self).toc == entries,
            final(self).metadata == old(self).metadata,
            final(self).items == old(self).items,
            final(self).spine == old(self).spine,
            final(self).version == old(self).version,
    {
        self.toc = entries;
    }

    /// Set the spine from (idref, linear) pairs.
    pub fn set_spine_from_entries(&mut self, entries: Vec<(String, bool)>)
        ensures
            final(self).spine@.len() == entries@.len(),
            forall|i: int|
                0 <= i < entries@.len() ==> (#[trigger] final(self).spine@[i]).idref@ == entries@[i].0@
                    && final(self).spine@[i].linear == entries@[i].1 && final(self).spine@[i].properties is None,
            final(self).metadata == old(self).metadata,
            final(self).items == old(self).items,
            final(self).toc == old(self).toc,
            final(self).version == old(self).version,
    {
        let n = entries.len();
        let mut spine: Vec<SpineItem> = Vec::new();
        let mut i: usize = 0;
        while i < n
            invariant
                i <= n,
                n == entries@.len(),
                spine@.len() == i,
                forall|j: int|
                    0 <= j < i ==> (#[trigger] spine@[j]).idref@ == entries@[j].0@ && spine@[j].linear
                        == entries@[j].1 && spine@[j].properties is None,
            decreases n - i,
        {
            spine.push(SpineItem::new(entries[i].0.as_str(), entries[i].1));
            i += 1;
        }
        self.spine = spine;
    }
}

/// The attributes of an author: `opf:file-as`, `opf:role` and `id`, for the
/// parts given, in that order.
pub open spec fn author_attrs(
    file_as: Option<Seq<char>>,
    role: Option<Seq<char>>,
    uid: Option<Seq<char>>,
) -> Seq<(Seq<char>, Seq<char>)> {
    (match file_as {
        Some(f) => seq![("opf:file-as"@, f)],
        None => Seq::empty(),
    }) + (match role {
        Some(r) => seq![("opf:role"@, r)],
        None => Seq::empty(),
    }) + (match uid {
        Some(u) => seq![("id"@, u)],
        None => Seq::empty(),
    })
}

} // verus!
