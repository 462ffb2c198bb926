//! Tables of contents, and the EPUB2 NCX document.
use vstd::prelude::*;
use crate::errors::EpubError;
use crate::xml::{XmlDoc, NodeView, attr, children, find_named, parse_xml, xml_parse};

verus! {

/// A table of contents entry (used by both NCX and Nav parsers).
#[derive(Debug)]
pub struct TocEntry {
    pub title: String,
    pub href: String,
    pub children: Vec<TocEntry>,
}

impl TocEntry {
    /// An entry with the given title, target and children.
    pub fn new(title: &str, href: &str, children: Vec<TocEntry>) -> (res: Self)
        ensures
            res.title@ == title@,
            res.href@ == href@,
            res.children == children,
    {
        TocEntry { title: title.to_owned(), href: href.to_owned(), children }
    }
}

/// A table of contents entry as the contracts see it.
pub struct TocView {
    pub title: Seq<char>,
    pub href: Seq<char>,
    pub children: Seq<TocView>,
}

/// The view of an entry.
pub open spec fn toc_view(e: TocEntry) -> TocView
    decreases e, 1nat,
{
    TocView { title: e.title@, href: e.href@, children: toc_list_view(e.children@) }
}

/// The views of a list of entries.
pub open spec fn toc_list_view(es: Seq<TocEntry>) -> Seq<TocView>
    decreases es, 0nat,
{
    if es.len() == 0 {
        Seq::empty()
    } else {
        toc_list_view(es.drop_last()).push(toc_view(es.last()))
    }
}

/// The view of a list grows by the view of the entry pushed.
pub proof fn lemma_toc_list_view_push(es: Seq<TocEntry>, e: TocEntry)
    ensures
        toc_list_view(es.push(e)) == toc_list_view(es).push(toc_view(e)),
{
    assert(es.push(e).drop_last() =~= es);
}

/// How deeply an entry nests: 1 for an entry without children.
pub open spec fn view_depth(t: TocView) -> nat
    decreases t, 1nat,
{
    1 + views_depth(t.children)
}

/// How deeply the deepest of a list of entries nests.
pub open spec fn views_depth(ts: Seq<TocView>) -> nat
    decreases ts, 0nat,
{
    if ts.len() == 0 {
        0
    } else {
        let a = views_depth(ts.drop_last());
        let b = view_depth(ts.last());
        if a >= b {
            a
        } else {
            b
        }
    }
}

/// How deep the table of contents is read: deeper entries are left out.
pub const MAX_TOC_DEPTH: usize = 100;

/// The text of the first `text` inside the first `navLabel` of node `k`.
pub open spec fn ncx_title(ns: Seq<NodeView>, k: int) -> Seq<char> {
    match find_named(ns, k, "navLabel"@) {
        Some(l) => match find_named(ns, l, "text"@) {
            Some(t) => match ns[t].text {
                Some(x) => x,
                None => Seq::empty(),
            },
            None => Seq::empty(),
        },
        None => Seq::empty(),
    }
}

/// The `src` of the first `content` inside node `k`.
pub open spec fn ncx_href(ns: Seq<NodeView>, k: int) -> Seq<char> {
    match find_named(ns, k, "content"@) {
        Some(c) => match attr(ns, c, None, "src"@) {
            Some(x) => x,
            None => Seq::empty(),
        },
        None => Seq::empty(),
    }
}

/// The entries of the `navPoint` children of `parent`, read at `depth`.
pub open spec fn ncx_list(ns: Seq<NodeView>, parent: int, depth: nat) -> Seq<TocView>
    decreases MAX_TOC_DEPTH - depth, 1nat, 0nat,
{
    if depth >= MAX_TOC_DEPTH {
        Seq::empty()
    } else {
        ncx_entries(ns, children(ns, parent), depth)
    }
}

/// The entries of the listed nodes that are `navPoint` elements, read at `depth`.
pub open spec fn ncx_entries(ns: Seq<NodeView>, kids: Seq<int>, depth: nat) -> Seq<TocView>
    decreases MAX_TOC_DEPTH - depth, 0nat, kids.len(),
{
    if depth >= MAX_TOC_DEPTH || kids.len() == 0 {
        Seq::empty()
    } else {
        let rest = ncx_entries(ns, kids.drop_last(), depth);
        let k = kids.last();
        if ns[k].is_element && ns[k].name == "navPoint"@ {
            rest.push(
                TocView {
                    title: ncx_title(ns, k),
                    href: ncx_href(ns, k),
                    children: ncx_list(ns, k, depth + 1),
                },
            )
        } else {
            rest
        }
    }
}

/// The entries read from an NCX nest no deeper than the levels left
/// before the depth limit.
pub proof fn lemma_ncx_depth_capped(ns: Seq<NodeView>, parent: int, depth: nat)
    ensures
        depth <= MAX_TOC_DEPTH ==> views_depth(ncx_list(ns, parent, depth)) <= MAX_TOC_DEPTH - depth,
    decreases MAX_TOC_DEPTH - depth, 1nat, 0nat,
{
    if depth < MAX_TOC_DEPTH {
        lemma_ncx_entries_depth(ns, children(ns, parent), depth);
    }
}

/// The entries of a list of nodes nest no deeper than the levels left.
proof fn lemma_ncx_entries_depth(ns: Seq<NodeView>, kids: Seq<int>, depth: nat)
    requires
        depth < MAX_TOC_DEPTH,
    ensures
        views_depth(ncx_entries(ns, kids, depth)) <= MAX_TOC_DEPTH - depth,
    decreases MAX_TOC_DEPTH - depth, 0nat, kids.len(),
{
    if kids.len() > 0 {
        lemma_ncx_entries_depth(ns, kids.drop_last(), depth);
        let k = kids.last();
        if ns[k].is_element && ns[k].name == "navPoint"@ {
            lemma_ncx_depth_capped(ns, k, depth + 1);
            let rest = ncx_entries(ns, kids.drop_last(), depth);
            let e = TocView { title: ncx_title(ns, k), href: ncx_href(ns, k), children: ncx_list(ns, k, depth + 1) };
            assert(rest.push(e).drop_last() =~= rest);
            assert(ncx_entries(ns, kids, depth) == rest.push(e));
            assert(view_depth(e) == 1 + views_depth(e.children));
            assert(views_depth(rest.push(e)) <= MAX_TOC_DEPTH - depth);
        }
    }
}

/// The first node named `navMap` from `j` on.
pub open spec fn nav_map_from(ns: Seq<NodeView>, j: int) -> Option<int>
    decreases ns.len() - j,
{
    if j < 0 || j >= ns.len() {
        None
    } else if ns[j].name == "navMap"@ {
        Some(j)
    } else {
        nav_map_from(ns, j + 1)
    }
}

/// The table of contents of a parsed NCX document: the entries under its
/// first `navMap`, if any.
pub open spec fn ncx_toc_of(ns: Seq<NodeView>) -> Seq<TocView> {
    match nav_map_from(ns, 0) {
        Some(m) => ncx_list(ns, m, 0),
        None => Seq::empty(),
    }
}

/// The title of the entry of node `k`.
fn ncx_title_exec(doc: &XmlDoc, k: usize) -> (res: String)
    requires
        k < doc@.len(),
    ensures
        res@ == ncx_title(doc@, k as int),
{
    match doc.find_named(k, "navLabel") {
        Some(l) => match doc.find_named(l, "text") {
            Some(t) => {
                assert(doc@[t as int] == doc.nodes@[t as int]@);
                match &doc.nodes[t].text {
                    Some(x) => x.as_str().to_owned(),
                    None => String::new(),
                }
            },
            None => String::new(),
        },
        None => String::new(),
    }
}

/// The target of the entry of node `k`.
fn ncx_href_exec(doc: &XmlDoc, k: usize) -> (res: String)
    requires
        k < doc@.len(),
    ensures
        res@ == ncx_href(doc@, k as int),
{
    match doc.find_named(k, "content") {
        Some(c) => match doc.attribute(c, None, "src") {
            Some(x) => x.to_owned(),
            None => String::new(),
        },
        None => String::new(),
    }
}

/// Recursively parse <navPoint> elements.
fn parse_nav_points_depth(doc: &XmlDoc, parent: usize, depth: usize) -> (res: Vec<TocEntry>)
    requires
        parent < doc@.len(),
    ensures
        toc_list_view(res@) == ncx_list(doc@, parent as int, depth as nat),
    decreases MAX_TOC_DEPTH - depth,
{
    if depth >= MAX_TOC_DEPTH {
        return Vec::new();
    }
    proof {
        reveal_strlit("navPoint");
    }
    let kids = doc.children(parent);
    let ghost cs = children(doc@, parent as int);
    let m = kids.len();
    let mut entries: Vec<TocEntry> = Vec::new();
    let mut i: usize = 0;
    while i < m
        invariant
            i <= m,
            depth < MAX_TOC_DEPTH,
            m == kids@.len(),
            m == cs.len(),
            cs == children(doc@, parent as int),
            forall|t: int| 0 <= t < m ==> kids@[t] as int == cs[t],
            forall|t: int| 0 <= t < m ==> kids@[t] < doc@.len(),
            toc_list_view(entries@) == ncx_entries(doc@, cs.take(i as int), depth as nat),
        decreases m - i,
    {
        let k = kids[i];
        assert(cs.take(i + 1).drop_last() =~= cs.take(i as int));
        assert(cs.take(i + 1).last() == k as int);
        let node = &doc.nodes[k];
        assert(doc@[k as int] == node@);
        if node.is_element && crate::text::str_eq(node.name.as_str(), "navPoint") {
            let title = ncx_title_exec(doc, k);
            let href = ncx_href_exec(doc, k);
            let kids_of_k = parse_nav_points_depth(doc, k, depth + 1);
            let e = TocEntry { title, href, children: kids_of_k };
            proof {
                lemma_toc_list_view_push(entries@, e);
            }
            entries.push(e);
        }
        i += 1;
    }
    proof {
        assert(cs.take(m as int) =~= cs);
    }
    entries
}

/// The table of contents of a parsed NCX document.
pub fn ncx_toc(doc: &XmlDoc) -> (res: Vec<TocEntry>)
    ensures
        toc_list_view(res@) == ncx_toc_of(doc@),
{
    proof {
        reveal_strlit("navMap");
    }
    let n = doc.nodes.len();
    let mut j: usize = 0;
    while j < n
        invariant
            j <= n,
            n == doc@.len(),
            nav_map_from(doc@, 0) == nav_map_from(doc@, j as int),
        decreases n - j,
    {
        assert(doc@[j as int] == doc.nodes@[j as int]@);
        if crate::text::str_eq(doc.nodes[j].name.as_str(), "navMap") {
            return parse_nav_points_depth(doc, j, 0);
        }
        j += 1;
    }
    Vec::new()
}

/// Parse an NCX document (EPUB2 table of contents).
pub fn parse_ncx(xml: &str) -> (res: Result<Vec<TocEntry>, EpubError>)
    ensures
        match xml_parse(xml@) {
            None => res matches Err(e) && e is Xml,
            Some(ns) => res matches Ok(v) && toc_list_view(v@) == ncx_toc_of(ns),
        },
{
    match parse_xml(xml) {
        Ok(doc) => Ok(ncx_toc(&doc)),
        Err(e) => Err(EpubError::Xml(e)),
    }
}

} // verus!
