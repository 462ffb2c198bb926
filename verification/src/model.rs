//! The book and its items.
use vstd::prelude::*;
use std::sync::Arc;
use crate::archive::{zip_read, zip_size};
use crate::item_type::ItemType;
use crate::metadata::{MetadataItem, MetadataMap};
use crate::metadata;
use crate::ncx::TocEntry;
use crate::spine::SpineItem;
use crate::text;
use crate::text::str_eq;

verus! {

/// Maximum size for a single lazy-loaded entry (100 MB).
pub const MAX_LAZY_SIZE: u64 = 104857600;

/// Source data for lazy content loading.
pub struct LazySource {
    pub zip_data: Arc<Vec<u8>>,
    pub zip_path: String,
}

/// What a lazily loaded item holds: the entry's bytes, or nothing when the
/// archive does not open, lacks the entry, records it as larger than
/// `MAX_LAZY_SIZE`, or cannot read it.
pub open spec fn lazy_content(data: Seq<u8>, path: Seq<char>) -> Seq<u8> {
    crate::archive::entry_content(data, path)
}

/// A single item (file) within an EPUB.
///
/// Content is either held by the item, or loaded from the archive it came
/// from each time it is asked for (lazy mode).
pub struct EpubItem {
    pub id: String,
    pub href: String,
    pub media_type: String,
    pub item_type: ItemType,
    /// OPF manifest `properties` attribute (e.g. "nav scripted mathml").
    /// Kept verbatim across a read and a write, so properties such as
    /// `scripted`, `mathml`, `svg` and `remote-resources` survive.
    pub properties: Option<String>,
    /// OPF manifest `media-overlay` attribute (idref to a SMIL item).
    pub media_overlay: Option<String>,
    /// OPF manifest `fallback` attribute (idref chain for foreign resources).
    pub fallback: Option<String>,
    /// The content of an item that is not lazy.
    pub content: Vec<u8>,
    /// Where a lazy item loads its content from.
    pub lazy_source: Option<LazySource>,
}

impl EpubItem {
    /// The item's content.
    pub open spec fn content_view(&self) -> Seq<u8> {
        match self.lazy_source {
            Some(src) => lazy_content(src.zip_data@, src.zip_path@),
            None => self.content@,
        }
    }

    /// Create an item with content already loaded (eager mode / write mode).
    pub fn eager(
        id: String,
        href: String,
        media_type: String,
        item_type: ItemType,
        content: Vec<u8>,
    ) -> (res: Self)
        ensures
            res.id == id,
            res.href == href,
            res.media_type == media_type,
            res.item_type == item_type,
            res.properties is None,
            res.media_overlay is None,
            res.fallback is None,
            res.lazy_source is None,
            res.content_view() == content@,
    {
        EpubItem {
            id,
            href,
            media_type,
            item_type,
            properties: None,
            media_overlay: None,
            fallback: None,
            content,
            lazy_source: None,
        }
    }

    /// Create an item with deferred content loading (lazy mode).
    pub fn lazy(
        id: String,
        href: String,
        media_type: String,
        item_type: ItemType,
        zip_data: Arc<Vec<u8>>,
        zip_path: String,
    ) -> (res: Self)
        ensures
            res.id == id,
            res.href == href,
            res.media_type == media_type,
            res.item_type == item_type,
            res.properties is None,
            res.media_overlay is None,
            res.fallback is None,
            res.lazy_source matches Some(src) && src.zip_data == zip_data && src.zip_path == zip_path,
            res.content_view() == lazy_content(zip_data@, zip_path@),
    {
        EpubItem {
            id,
            href,
            media_type,
            item_type,
            properties: None,
            media_overlay: None,
            fallback: None,
            content: Vec::new(),
            lazy_source: Some(LazySource { zip_data, zip_path }),
        }
    }

    /// Get item content, loading it from the archive if the item is lazy.
    pub fn get_content(&self) -> (res: Vec<u8>)
        ensures
            res@ == self.content_view(),
    {
        match &self.lazy_source {
            Some(src) => {
                let data: &Vec<u8> = &src.zip_data;
                let path = src.zip_path.as_str();
                match zip_size(data.as_slice(), path) {
                    Ok(size) => {
                        if size > MAX_LAZY_SIZE {
                            Vec::new()
                        } else {
                            match zip_read(data.as_slice(), path) {
                                Ok(Ok(b)) => b,
                                _ => Vec::new(),
                            }
                        }
                    },
                    Err(_) => Vec::new(),
                }
            },
            None => self.content.clone(),
        }
    }
}

/// A copy of an optional string.
pub(crate) fn copy_opt_string(o: &Option<String>) -> (res: Option<String>)
    ensures
        crate::xml::opt_str(res) == crate::xml::opt_str(*o),
{
    match o {
        Some(s) => Some(s.as_str().to_owned()),
        None => None,
    }
}

impl Clone for EpubItem {
    /// Cloning always produces an eager item with resolved content.
    fn clone(&self) -> (res: Self)
        ensures
            book_item_view(res) == book_item_view(*self),
            res.lazy_source is None,
    {
        let mut item = EpubItem::eager(
            self.id.as_str().to_owned(),
            self.href.as_str().to_owned(),
            self.media_type.as_str().to_owned(),
            self.item_type,
            self.get_content(),
        );
        item.properties = copy_opt_string(&self.properties);
        item.media_overlay = copy_opt_string(&self.media_overlay);
        item.fallback = copy_opt_string(&self.fallback);
        item
    }
}

/// The index of the last item whose id is `id`, among the first `n` items.
pub open spec fn last_index_with_id(items: Seq<Arc<EpubItem>>, id: Seq<char>, n: int) -> Option<int>
    decreases n,
{
    if n <= 0 || n > items.len() {
        None
    } else if items[n - 1].id@ == id {
        Some(n - 1)
    } else {
        last_index_with_id(items, id, n - 1)
    }
}

/// The index of the last item whose href is `href`, among the first `n` items.
pub open spec fn last_index_with_href(items: Seq<Arc<EpubItem>>, href: Seq<char>, n: int) -> Option<int>
    decreases n,
{
    if n <= 0 || n > items.len() {
        None
    } else if items[n - 1].href@ == href {
        Some(n - 1)
    } else {
        last_index_with_href(items, href, n - 1)
    }
}

/// A parsed EPUB book.
pub struct EpubBook {
    pub metadata: MetadataMap,
    pub items: Vec<Arc<EpubItem>>,
    pub spine: Vec<SpineItem>,
    pub toc: Vec<TocEntry>,
    /// Source EPUB version string from `<package version="...">`. Defaults
    /// to "3.0" for books constructed via the builder API. The writer uses
    /// this to decide whether to emit EPUB2- or EPUB3-flavored OPF.
    pub version: String,
}

impl Default for EpubBook {
    fn default() -> (res: Self)
        ensures
            res.metadata@ == Seq::<(Seq<char>, metadata::FieldsView)>::empty(),
            res.items@ == Seq::<Arc<EpubItem>>::empty(),
            res.spine@ == Seq::<SpineItem>::empty(),
            res.toc@ == Seq::<TocEntry>::empty(),
            res.version@ == "3.0"@,
    {
        EpubBook {
            metadata: MetadataMap::new(),
            items: Vec::new(),
            spine: Vec::new(),
            toc: Vec::new(),
            version: "3.0".to_owned(),
        }
    }
}

/// Shares an item: `Arc::clone`, which gives a handle to the same item.
#[verifier::external_body]
pub(crate) fn share<T>(a: &Arc<T>) -> (res: Arc<T>)
    ensures
        res == *a,
{
    Arc::clone(a)
}

impl EpubBook {
    /// Build a new EpubBook.
    pub fn new(
        metadata: MetadataMap,
        items: Vec<Arc<EpubItem>>,
        spine: Vec<SpineItem>,
        toc: Vec<TocEntry>,
    ) -> (res: Self)
        ensures
            res.metadata == metadata,
            res.items == items,
            res.spine == spine,
            res.toc == toc,
            res.version@ == "3.0"@,
    {
        Self::new_with_version(metadata, items, spine, toc, "3.0".to_owned())
    }

    /// Build a new EpubBook with an explicit source version.
    pub fn new_with_version(
        metadata: MetadataMap,
        items: Vec<Arc<EpubItem>>,
        spine: Vec<SpineItem>,
        toc: Vec<TocEntry>,
        version: String,
    ) -> (res: Self)
        ensures
            res.metadata == metadata,
            res.items == items,
            res.spine == spine,
            res.toc == toc,
            res.version == version,
    {
        EpubBook { metadata, items, spine, toc, version }
    }

    /// The item with manifest id `id` (the last one added, if several have it).
    pub fn get_item_by_id(&self, id: &str) -> (res: Option<Arc<EpubItem>>)
        ensures
            res matches Some(it) ==> (last_index_with_id(self.items@, id@, self.items@.len() as int)
                matches Some(i) && it == self.items@[i]),
            res is None ==> last_index_with_id(self.items@, id@, self.items@.len() as int) is None,
    {
        let mut n = self.items.len();
        while n > 0
            invariant
                n <= self.items@.len(),
                last_index_with_id(self.items@, id@, self.items@.len() as int)
                    == last_index_with_id(self.items@, id@, n as int),
            decreases n,
        {
            if str_eq(self.items[n - 1].id.as_str(), id) {
                return Some(share(&self.items[n - 1]));
            }
            n -= 1;
        }
        None
    }

    /// The item with href `href` (the last one added, if several have it).
    pub fn get_item_by_href(&self, href: &str) -> (res: Option<Arc<EpubItem>>)
        ensures
            res matches Some(it) ==> (last_index_with_href(self.items@, href@, self.items@.len() as int)
                matches Some(i) && it == self.items@[i]),
            res is None ==> last_index_with_href(self.items@, href@, self.items@.len() as int) is None,
    {
        let mut n = self.items.len();
        while n > 0
            invariant
                n <= self.items@.len(),
                last_index_with_href(self.items@, href@, self.items@.len() as int)
                    == last_index_with_href(self.items@, href@, n as int),
            decreases n,
        {
            if str_eq(self.items[n - 1].href.as_str(), href) {
                return Some(share(&self.items[n - 1]));
            }
            n -= 1;
        }
        None
    }

    /// Add an item to the book.
    pub fn add_item(&mut self, item: Arc<EpubItem>)
        ensures
            final(self).items@ == old(self).items@.push(item),
            final(self).metadata == old(self).metadata,
            final(self).spine == old(self).spine,
            final(self).toc == old(self).toc,
            final(self).version == old(self).version,
    {
        self.items.push(item);
    }

    /// Set a metadata field (replaces existing values for that ns+field).
    pub fn set_metadata(&mut self, ns: &str, field: &str, value: &str, attrs: Vec<(String, String)>)
        ensures
            final(self).metadata@ == metadata::put_values(
                old(self).metadata@,
                ns@,
                field@,
                seq![(value@, metadata::attrs_view(attrs@))],
            ),
            final(self).items == old(self).items,
            final(self).spine == old(self).spine,
            final(self).toc == old(self).toc,
            final(self).version == old(self).version,
    {
        let mut v: Vec<MetadataItem> = Vec::new();
        v.push(MetadataItem::new(value, attrs));
        proof {
            assert(metadata::items_view(v@) =~= seq![(value@, metadata::attrs_view(attrs@))]);
        }
        self.metadata.put_values(ns, field, v);
    }

    /// Add a metadata value (appends, does not replace).
    pub fn add_metadata(&mut self, ns: &str, field: &str, value: &str, attrs: Vec<(String, String)>)
        ensures
            final(self).metadata@ == metadata::put_values(
                old(self).metadata@,
                ns@,
                field@,
                match metadata::field_values(old(self).metadata@, ns@, field@) {
                    Some(vs) => vs,
                    None => Seq::empty(),
                }.push((value@, metadata::attrs_view(attrs@))),
            ),
            final(self).items == old(self).items,
            final(self).spine == old(self).spine,
            final(self).toc == old(self).toc,
            final(self).version == old(self).version,
    {
        let mut v: Vec<MetadataItem> = Vec::new();
        if let Some(existing) = self.metadata.get(ns, field) {
            let n = existing.len();
            let mut i: usize = 0;
            while i < n
                invariant
                    i <= n,
                    n == existing@.len(),
                    v@.len() == i,
                    metadata::items_view(v@) == metadata::items_view(existing@).take(i as int),
                decreases n - i,
            {
                let it = &existing[i];
                let ghost before = v@;
                let copy = MetadataItem { value: it.value.clone(), attributes: clone_attrs(&it.attributes) };
                assert(copy@ == existing@[i as int]@);
                v.push(copy);
                proof {
                    assert forall|k: int| 0 <= k < i + 1 implies #[trigger] metadata::items_view(v@)[k]
                        == metadata::items_view(existing@).take(i + 1)[k] by {
                        if k < i {
                            assert(v@[k] == before[k]);
                            assert(metadata::items_view(before)[k] == metadata::items_view(existing@).take(i as int)[k]);
                        }
                    }
                    assert(metadata::items_view(v@) =~= metadata::items_view(existing@).take(i + 1));
                }
                i += 1;
            }
            proof {
                assert(metadata::items_view(existing@).take(n as int) =~= metadata::items_view(existing@));
            }
        }
        let ghost before = v@;
        let ghost old_vals = match metadata::field_values(self.metadata@, ns@, field@) {
            Some(vs) => vs,
            None => Seq::empty(),
        };
        assert(metadata::items_view(before) == old_vals);
        v.push(MetadataItem::new(value, attrs));
        proof {
            assert(v@ =~= before.push(v@.last()));
            assert(metadata::items_view(v@) =~= old_vals.push((value@, metadata::attrs_view(attrs@))));
        }
        self.metadata.put_values(ns, field, v);
    }

    /// Get first value for a metadata field, or None.
    pub fn get_metadata_value(&self, ns: &str, field: &str) -> (res: Option<&str>)
        ensures
            text::opt_view(res) == metadata::first_value(self.metadata@, ns@, field@),
    {
        self.metadata.first_value(ns, field)
    }
}

/// A copy of a list of attribute pairs.
pub fn clone_attrs(a: &Vec<(String, String)>) -> (res: Vec<(String, String)>)
    ensures
        metadata::attrs_view(res@) == metadata::attrs_view(a@),
{
    let n = a.len();
    let mut out: Vec<(String, String)> = Vec::new();
    let mut i: usize = 0;
    while i < n
        invariant
            i <= n,
            n == a@.len(),
            out@.len() == i,
            metadata::attrs_view(out@) == metadata::attrs_view(a@).take(i as int),
        decreases n - i,
    {
        let ghost before = out@;
        out.push((a[i].0.clone(), a[i].1.clone()));
        proof {
            assert(out@ =~= before.push(a@[i as int]));
            assert forall|k: int| 0 <= k < i + 1 implies #[trigger] metadata::attrs_view(out@)[k]
                == metadata::attrs_view(a@).take(i + 1)[k] by {
                if k < i {
                    assert(metadata::attrs_view(before)[k] == metadata::attrs_view(a@).take(i as int)[k]);
                }
            }
            assert(metadata::attrs_view(out@) =~= metadata::attrs_view(a@).take(i + 1));
        }
        i += 1;
    }
    proof {
        assert(metadata::attrs_view(a@).take(n as int) =~= metadata::attrs_view(a@));
    }
    out
}

/// An item added to a book is what a lookup by its id then finds.
pub proof fn lemma_find_added_item(items: Seq<Arc<EpubItem>>, item: Arc<EpubItem>)
    ensures
        last_index_with_id(items.push(item), item.id@, items.len() + 1int) == Some(items.len() as int),
        last_index_with_href(items.push(item), item.href@, items.len() + 1int) == Some(items.len() as int),
{
}

/// Setting a metadata field and then reading it gives the value that was set.
pub proof fn lemma_metadata_read_after_set(
    m: metadata::MetadataView,
    ns: Seq<char>,
    field: Seq<char>,
    value: metadata::ItemView,
)
    ensures
        metadata::first_value(metadata::put_values(m, ns, field, seq![value]), ns, field) == Some(
            value.0,
        ),
{
    metadata::lemma_values_after_put(m, ns, field, seq![value], ns, field);
}

/// Adding a metadata value keeps the field's first value, or makes the added
/// value the first one when the field had none.
pub proof fn lemma_metadata_read_after_add(
    m: metadata::MetadataView,
    ns: Seq<char>,
    field: Seq<char>,
    old_vals: Seq<metadata::ItemView>,
    value: metadata::ItemView,
)
    requires
        old_vals == match metadata::field_values(m, ns, field) {
            Some(vs) => vs,
            None => Seq::empty(),
        },
    ensures
        metadata::first_value(metadata::put_values(m, ns, field, old_vals.push(value)), ns, field)
            == if old_vals.len() > 0 {
            Some(old_vals[0].0)
        } else {
            Some(value.0)
        },
{
    metadata::lemma_values_after_put(m, ns, field, old_vals.push(value), ns, field);
}

/// An item as a reader of the book sees it: its manifest entry and content.
pub struct BookItemView {
    pub id: Seq<char>,
    pub href: Seq<char>,
    pub media_type: Seq<char>,
    pub item_type: ItemType,
    pub properties: Option<Seq<char>>,
    pub media_overlay: Option<Seq<char>>,
    pub fallback: Option<Seq<char>>,
    pub content: Seq<u8>,
}

/// The view of an item.
pub open spec fn book_item_view(it: EpubItem) -> BookItemView {
    BookItemView {
        id: it.id@,
        href: it.href@,
        media_type: it.media_type@,
        item_type: it.item_type,
        properties: crate::xml::opt_str(it.properties),
        media_overlay: crate::xml::opt_str(it.media_overlay),
        fallback: crate::xml::opt_str(it.fallback),
        content: it.content_view(),
    }
}

/// A book as a reader of it sees it.
pub struct BookView {
    pub metadata: metadata::MetadataView,
    pub items: Seq<BookItemView>,
    pub spine: Seq<crate::spine::SpineView>,
    pub toc: Seq<crate::ncx::TocView>,
    pub version: Seq<char>,
}

/// The view of a book.
pub open spec fn book_view(b: EpubBook) -> BookView {
    BookView {
        metadata: b.metadata@,
        items: Seq::new(b.items@.len(), |i: int| book_item_view(*b.items@[i])),
        spine: crate::spine::spine_view(b.spine@),
        toc: crate::ncx::toc_list_view(b.toc@),
        version: b.version@,
    }
}

} // verus!
