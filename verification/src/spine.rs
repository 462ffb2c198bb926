//! The reading order of a book.
use vstd::prelude::*;
use crate::text::str_eq;
use crate::xml::{XmlDoc, NodeView, attr, children, opt_str};

verus! {

/// A single item reference in the reading order.
#[derive(Debug, Clone)]
pub struct SpineItem {
    pub idref: String,
    pub linear: bool,
    /// The itemref's `properties` attribute, emitted verbatim by the writer.
    pub properties: Option<String>,
}

impl SpineItem {
    /// A linear or non-linear reference to the item `idref`, without properties.
    pub fn new(idref: &str, linear: bool) -> (res: Self)
        ensures
            res.idref@ == idref@,
            res.linear == linear,
            res.properties is None,
    {
        SpineItem { idref: idref.to_owned(), linear, properties: None }
    }
}

/// A spine entry as the contracts see it: idref, linear, properties.
pub type SpineView = (Seq<char>, bool, Option<Seq<char>>);

/// The view of a spine entry.
pub open spec fn spine_item_view(e: SpineItem) -> SpineView {
    (e.idref@, e.linear, opt_str(e.properties))
}

/// The views of a list of spine entries.
pub open spec fn spine_view(items: Seq<SpineItem>) -> Seq<SpineView> {
    items.map_values(|e: SpineItem| spine_item_view(e))
}

/// The spine entry that node `k` declares: an `itemref` element with an
/// `idref`; it is linear unless its `linear` attribute is `no`.
pub open spec fn spine_entry(ns: Seq<NodeView>, k: int) -> Option<SpineView> {
    if !(ns[k].is_element && ns[k].name == "itemref"@) {
        None
    } else {
        match attr(ns, k, None, "idref"@) {
            Some(idref) => Some(
                (
                    idref,
                    attr(ns, k, None, "linear"@) != Some("no"@),
                    attr(ns, k, None, "properties"@),
                ),
            ),
            None => None,
        }
    }
}

/// The spine entries declared by the listed nodes, in order.
pub open spec fn spine_of(ns: Seq<NodeView>, kids: Seq<int>) -> Seq<SpineView>
    decreases kids.len(),
{
    if kids.len() == 0 {
        Seq::empty()
    } else {
        let s = spine_of(ns, kids.drop_last());
        match spine_entry(ns, kids.last()) {
            Some(e) => s.push(e),
            None => s,
        }
    }
}

/// Parse the <spine> element. Returns (items, optional NCX id).
pub fn parse_spine(doc: &XmlDoc, spine_node: usize) -> (res: (Vec<SpineItem>, Option<String>))
    requires
        spine_node < doc@.len(),
    ensures
        spine_view(res.0@) == spine_of(doc@, children(doc@, spine_node as int)),
        opt_str(res.1) == attr(doc@, spine_node as int, None, "toc"@),
{
    proof {
        reveal_strlit("itemref");
        reveal_strlit("no");
    }
    let toc_id = match doc.attribute(spine_node, None, "toc") {
        Some(t) => Some(t.to_owned()),
        None => None,
    };
    let kids = doc.children(spine_node);
    let ghost cs = children(doc@, spine_node as int);
    let m = kids.len();
    let mut items: Vec<SpineItem> = Vec::new();
    let mut i: usize = 0;
    while i < m
        invariant
            i <= m,
            m == kids@.len(),
            m == cs.len(),
            cs == children(doc@, spine_node as int),
            forall|t: int| 0 <= t < m ==> kids@[t] as int == cs[t],
            forall|t: int| 0 <= t < m ==> kids@[t] < doc@.len(),
            spine_view(items@) == spine_of(doc@, cs.take(i as int)),
        decreases m - i,
    {
        let k = kids[i];
        assert(cs.take(i + 1).drop_last() =~= cs.take(i as int));
        let node = &doc.nodes[k];
        assert(doc@[k as int] == node@);
        if node.is_element && str_eq(node.name.as_str(), "itemref") {
            if let Some(idref) = doc.attribute(k, None, "idref") {
                let linear = match doc.attribute(k, None, "linear") {
                    Some(v) => !str_eq(v, "no"),
                    None => true,
                };
                let properties = match doc.attribute(k, None, "properties") {
                    Some(v) => Some(v.to_owned()),
                    None => None,
                };
                let ghost before = spine_view(items@);
                items.push(SpineItem { idref: idref.to_owned(), linear, properties });
                proof {
                    assert(spine_view(items@) =~= before.push(spine_item_view(items@.last())));
                }
            }
        }
        i += 1;
    }
    proof {
        assert(cs.take(m as int) =~= cs);
    }
    (items, toc_id)
}

} // verus!
