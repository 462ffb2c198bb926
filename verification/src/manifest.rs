//! The OPF `<manifest>`: the files of a book.
use vstd::prelude::*;
use crate::text::str_eq;
use crate::xml::{XmlDoc, NodeView, attr, children, opt_str};

verus! {

/// A single item from the OPF <manifest>.
#[derive(Debug)]
pub struct ManifestItem {
    pub id: String,
    pub href: String,
    pub media_type: String,
    pub properties: Option<String>,
    /// The `media-overlay` attribute (idref to a SMIL item).
    pub media_overlay: Option<String>,
    /// The `fallback` attribute (idref chain for foreign resources).
    pub fallback: Option<String>,
}

/// A manifest item as the contracts see it.
pub struct ManifestView {
    pub id: Seq<char>,
    pub href: Seq<char>,
    pub media_type: Seq<char>,
    pub properties: Option<Seq<char>>,
    pub media_overlay: Option<Seq<char>>,
    pub fallback: Option<Seq<char>>,
}

impl View for ManifestItem {
    type V = ManifestView;

    open spec fn view(&self) -> ManifestView {
        ManifestView {
            id: self.id@,
            href: self.href@,
            media_type: self.media_type@,
            properties: opt_str(self.properties),
            media_overlay: opt_str(self.media_overlay),
            fallback: opt_str(self.fallback),
        }
    }
}

/// The views of a list of manifest items.
pub open spec fn manifest_view(items: Seq<ManifestItem>) -> Seq<ManifestView> {
    items.map_values(|m: ManifestItem| m@)
}

/// The manifest item that node `k` declares: an `item` element with an `id`
/// and an `href`.
pub open spec fn manifest_entry(ns: Seq<NodeView>, k: int) -> Option<ManifestView> {
    if !(ns[k].is_element && ns[k].name == "item"@) {
        None
    } else {
        match (attr(ns, k, None, "id"@), attr(ns, k, None, "href"@)) {
            (Some(id), Some(href)) => Some(
                ManifestView {
                    id,
                    href,
                    media_type: match attr(ns, k, None, "media-type"@) {
                        Some(t) => t,
                        None => Seq::empty(),
                    },
                    properties: attr(ns, k, None, "properties"@),
                    media_overlay: attr(ns, k, None, "media-overlay"@),
                    fallback: attr(ns, k, None, "fallback"@),
                },
            ),
            _ => None,
        }
    }
}

/// The index of the first item whose id is `id`.
pub open spec fn id_index(items: Seq<ManifestView>, id: Seq<char>) -> Option<int> {
    if exists|i: int| 0 <= i < items.len() && items[i].id == id {
        Some(choose|i: int| 0 <= i < items.len() && items[i].id == id && forall|j: int| 0 <= j < i ==> items[j].id != id)
    } else {
        None
    }
}

/// `items` with `e` in place of the item with its id, or with `e` added.
pub open spec fn put_item(items: Seq<ManifestView>, e: ManifestView) -> Seq<ManifestView> {
    match id_index(items, e.id) {
        Some(i) => items.update(i, e),
        None => items.push(e),
    }
}

/// The manifest declared by the listed nodes, one item per id: a later
/// declaration of an id replaces the earlier one in its place.
pub open spec fn manifest_of(ns: Seq<NodeView>, kids: Seq<int>) -> Seq<ManifestView>
    decreases kids.len(),
{
    if kids.len() == 0 {
        Seq::empty()
    } else {
        let m = manifest_of(ns, kids.drop_last());
        match manifest_entry(ns, kids.last()) {
            Some(e) => put_item(m, e),
            None => m,
        }
    }
}

/// An attribute's value, copied.
fn owned_attr(doc: &XmlDoc, k: usize, name: &str) -> (res: Option<String>)
    requires
        k < doc@.len(),
    ensures
        opt_str(res) == attr(doc@, k as int, None, name@),
{
    match doc.attribute(k, None, name) {
        Some(v) => Some(v.to_owned()),
        None => None,
    }
}

/// The index of the item with id `id`.
pub fn item_index(items: &Vec<ManifestItem>, id: &str) -> (res: Option<usize>)
    ensures
        res matches Some(i) ==> id_index(manifest_view(items@), id@) == Some(i as int) && i < items@.len(),
        res is None ==> id_index(manifest_view(items@), id@) is None,
{
    let ghost v = manifest_view(items@);
    let n = items.len();
    let mut i: usize = 0;
    while i < n
        invariant
            i <= n,
            n == items@.len(),
            v == manifest_view(items@),
            forall|j: int| 0 <= j < i ==> v[j].id != id@,
        decreases n - i,
    {
        if str_eq(items[i].id.as_str(), id) {
            assert(v[i as int].id == id@);
            assert(id_index(v, id@) == Some(i as int)) by {
                let c = choose|c: int| 0 <= c < v.len() && v[c].id == id@ && forall|j: int| 0 <= j < c ==> v[j].id != id@;
                if c < i {
                } else if c > i {
                    assert(v[i as int].id == id@);
                }
            }
            return Some(i);
        }
        i += 1;
    }
    None
}

/// The item that node `k` declares.
fn manifest_entry_exec(doc: &XmlDoc, k: usize) -> (res: Option<ManifestItem>)
    requires
        k < doc@.len(),
    ensures
        res matches Some(m) ==> manifest_entry(doc@, k as int) == Some(m@),
        res is None ==> manifest_entry(doc@, k as int) is None,
{
    proof {
        reveal_strlit("item");
    }
    let node = &doc.nodes[k];
    assert(doc@[k as int] == node@);
    if !(node.is_element && str_eq(node.name.as_str(), "item")) {
        return None;
    }
    let id = match owned_attr(doc, k, "id") {
        Some(v) => v,
        None => {
            return None;
        },
    };
    let href = match owned_attr(doc, k, "href") {
        Some(v) => v,
        None => {
            return None;
        },
    };
    let media_type = match owned_attr(doc, k, "media-type") {
        Some(v) => v,
        None => String::new(),
    };
    let properties = owned_attr(doc, k, "properties");
    let media_overlay = owned_attr(doc, k, "media-overlay");
    let fallback = owned_attr(doc, k, "fallback");
    Some(ManifestItem { id, href, media_type, properties, media_overlay, fallback })
}

/// Parse the <manifest> element, returning its items, one per id, in the
/// order their ids first appear.
pub fn parse_manifest(doc: &XmlDoc, manifest_node: usize) -> (res: Vec<ManifestItem>)
    requires
        manifest_node < doc@.len(),
    ensures
        manifest_view(res@) == manifest_of(doc@, children(doc@, manifest_node as int)),
{
    let kids = doc.children(manifest_node);
    let ghost cs = children(doc@, manifest_node as int);
    let m = kids.len();
    let mut items: Vec<ManifestItem> = Vec::new();
    let mut i: usize = 0;
    while i < m
        invariant
            i <= m,
            m == kids@.len(),
            m == cs.len(),
            cs == children(doc@, manifest_node as int),
            forall|t: int| 0 <= t < m ==> kids@[t] as int == cs[t],
            forall|t: int| 0 <= t < m ==> kids@[t] < doc@.len(),
            manifest_view(items@) == manifest_of(doc@, cs.take(i as int)),
        decreases m - i,
    {
        let k = kids[i];
        assert(cs.take(i + 1).drop_last() =~= cs.take(i as int));
        if let Some(entry) = manifest_entry_exec(doc, k) {
            let ghost before = manifest_view(items@);
            match item_index(&items, entry.id.as_str()) {
                Some(j) => {
                    let ghost old_items = items@;
                    items.set(j, entry);
                    proof {
                        assert(manifest_view(items@) =~= before.update(j as int, items@[j as int]@));
                    }
                },
                None => {
                    items.push(entry);
                    proof {
                        assert(manifest_view(items@) =~= before.push(items@.last()@));
                    }
                },
            }
        }
        i += 1;
    }
    proof {
        assert(cs.take(m as int) =~= cs);
    }
    items
}

} // verus!
