//! The EPUB3 Navigation Document: an XHTML `<nav epub:type="toc">`.
use vstd::prelude::*;
use crate::errors::EpubError;
use crate::markdown::trim_str;
use crate::ncx::{MAX_TOC_DEPTH, TocEntry, TocView, lemma_toc_list_view_push, toc_list_view, view_depth, views_depth};
use crate::text;
use crate::text::str_eq;
use crate::xml::{XmlDoc, AttrView, NodeView, attr, child_element, children, inner_text, parse_xml, xml_parse};

verus! {

/// The namespace of the `epub:type` attribute.
pub const EPUB_OPS_NS: &'static str = "http://www.idpf.org/2007/ops";

/// Some attribute is named `type` (in any namespace) with the value `toc`.
pub open spec fn has_toc_type(attrs: Seq<AttrView>) -> bool {
    exists|i: int| 0 <= i < attrs.len() && (#[trigger] attrs[i]).name == "type"@ && attrs[i].value == "toc"@
}

/// The first `nav` from `j` on whose `epub:type` is `toc`.
pub open spec fn toc_nav_from(ns: Seq<NodeView>, j: int) -> Option<int>
    decreases ns.len() - j,
{
    if j < 0 || j >= ns.len() {
        None
    } else if ns[j].name == "nav"@ && attr(ns, j, Some(EPUB_OPS_NS@), "type"@) == Some("toc"@) {
        Some(j)
    } else {
        toc_nav_from(ns, j + 1)
    }
}

/// The first `nav` from `j` on with any attribute `type` set to `toc`.
pub open spec fn any_toc_nav_from(ns: Seq<NodeView>, j: int) -> Option<int>
    decreases ns.len() - j,
{
    if j < 0 || j >= ns.len() {
        None
    } else if ns[j].name == "nav"@ && has_toc_type(ns[j].attributes) {
        Some(j)
    } else {
        any_toc_nav_from(ns, j + 1)
    }
}

/// The title and target of the list item `li`: those of its first `a`, or
/// the text of its first `span` with no target.
pub open spec fn li_label(ns: Seq<NodeView>, li: int) -> (Seq<char>, Seq<char>) {
    match child_element(ns, li, "a"@) {
        Some(a) => (
            text::trim(inner_text(ns, a)),
            match attr(ns, a, None, "href"@) {
                Some(h) => h,
                None => Seq::empty(),
            },
        ),
        None => match child_element(ns, li, "span"@) {
            Some(sp) => (text::trim(inner_text(ns, sp)), Seq::empty()),
            None => (Seq::empty(), Seq::empty()),
        },
    }
}

/// The entries of the `li` children of the list `ol`, read at `depth`.
pub open spec fn nav_list(ns: Seq<NodeView>, ol: int, depth: nat) -> Seq<TocView>
    decreases MAX_TOC_DEPTH - depth, 1nat, 0nat,
{
    if depth >= MAX_TOC_DEPTH {
        Seq::empty()
    } else {
        nav_entries(ns, children(ns, ol), depth)
    }
}

/// The entries of the listed nodes that are `li` elements, read at `depth`;
/// an item's children are those of its first nested `ol`.
pub open spec fn nav_entries(ns: Seq<NodeView>, kids: Seq<int>, depth: nat) -> Seq<TocView>
    decreases MAX_TOC_DEPTH - depth, 0nat, kids.len(),
{
    if depth >= MAX_TOC_DEPTH || kids.len() == 0 {
        Seq::empty()
    } else {
        let rest = nav_entries(ns, kids.drop_last(), depth);
        let li = kids.last();
        if ns[li].is_element && ns[li].name == "li"@ {
            let label = li_label(ns, li);
            rest.push(
                TocView {
                    title: label.0,
                    href: label.1,
                    children: match child_element(ns, li, "ol"@) {
                        Some(o) => nav_list(ns, o, depth + 1),
                        None => Seq::empty(),
                    },
                },
            )
        } else {
            rest
        }
    }
}

/// The entries read from a Nav list nest no deeper than the levels left
/// before the depth limit.
pub proof fn lemma_nav_depth_capped(ns: Seq<NodeView>, ol: int, depth: nat)
    ensures
        depth <= MAX_TOC_DEPTH ==> views_depth(nav_list(ns, ol, depth)) <= MAX_TOC_DEPTH - depth,
    decreases MAX_TOC_DEPTH - depth, 1nat, 0nat,
{
    if depth < MAX_TOC_DEPTH {
        lemma_nav_entries_depth(ns, children(ns, ol), depth);
    }
}

/// The entries of a list of nodes nest no deeper than the levels left.
proof fn lemma_nav_entries_depth(ns: Seq<NodeView>, kids: Seq<int>, depth: nat)
    requires
        depth < MAX_TOC_DEPTH,
    ensures
        views_depth(nav_entries(ns, kids, depth)) <= MAX_TOC_DEPTH - depth,
    decreases MAX_TOC_DEPTH - depth, 0nat, kids.len(),
{
    if kids.len() > 0 {
        lemma_nav_entries_depth(ns, kids.drop_last(), depth);
        let li = kids.last();
        if ns[li].is_element && ns[li].name == "li"@ {
            let rest = nav_entries(ns, kids.drop_last(), depth);
            let label = li_label(ns, li);
            let kids_of = match child_element(ns, li, "ol"@) {
                Some(o) => nav_list(ns, o, depth + 1),
                None => Seq::empty(),
            };
            match child_element(ns, li, "ol"@) {
                Some(o) => {
                    lemma_nav_depth_capped(ns, o, depth + 1);
                },
                None => {},
            }
            let e = TocView { title: label.0, href: label.1, children: kids_of };
            assert(rest.push(e).drop_last() =~= rest);
            assert(nav_entries(ns, kids, depth) == rest.push(e));
            assert(view_depth(e) == 1 + views_depth(e.children));
            assert(views_depth(rest.push(e)) <= MAX_TOC_DEPTH - depth);
        }
    }
}

/// The table of contents of a parsed Nav document: the list of the first
/// `nav` whose `epub:type` is `toc` (or, failing that, of the first `nav`
/// with a `type` attribute `toc`), read from its first `ol` child.
pub open spec fn nav_toc_of(ns: Seq<NodeView>) -> Seq<TocView> {
    let nav = match toc_nav_from(ns, 0) {
        Some(n) => Some(n),
        None => any_toc_nav_from(ns, 0),
    };
    match nav {
        Some(n) => match child_element(ns, n, "ol"@) {
            Some(o) => nav_list(ns, o, 0),
            None => Seq::empty(),
        },
        None => Seq::empty(),
    }
}

/// The title and target of the list item `li`.
fn li_label_exec(doc: &XmlDoc, li: usize) -> (res: (String, String))
    requires
        li < doc@.len(),
    ensures
        (res.0@, res.1@) == li_label(doc@, li as int),
{
    match doc.child_element(li, "a") {
        Some(a) => {
            let title = trim_str(doc.inner_text(a).as_str());
            let href = match doc.attribute(a, None, "href") {
                Some(h) => h.to_owned(),
                None => String::new(),
            };
            (title, href)
        },
        None => match doc.child_element(li, "span") {
            Some(sp) => (trim_str(doc.inner_text(sp).as_str()), String::new()),
            None => (String::new(), String::new()),
        },
    }
}

/// Recursively parse an <ol> element into TocEntry list.
fn parse_ol_depth(doc: &XmlDoc, ol: usize, depth: usize) -> (res: Vec<TocEntry>)
    requires
        ol < doc@.len(),
    ensures
        toc_list_view(res@) == nav_list(doc@, ol as int, depth as nat),
    decreases MAX_TOC_DEPTH - depth,
{
    if depth >= MAX_TOC_DEPTH {
        return Vec::new();
    }
    proof {
        reveal_strlit("li");
    }
    let kids = doc.children(ol);
    let ghost cs = children(doc@, ol as int);
    let m = kids.len();
    let mut entries: Vec<TocEntry> = Vec::new();
    let mut i: usize = 0;
    while i < m
        invariant
            i <= m,
            depth < MAX_TOC_DEPTH,
            m == kids@.len(),
            m == cs.len(),
            cs == children(doc@, ol as int),
            forall|t: int| 0 <= t < m ==> kids@[t] as int == cs[t],
            forall|t: int| 0 <= t < m ==> kids@[t] < doc@.len(),
            toc_list_view(entries@) == nav_entries(doc@, cs.take(i as int), depth as nat),
        decreases m - i,
    {
        let li = kids[i];
        assert(cs.take(i + 1).drop_last() =~= cs.take(i as int));
        assert(cs.take(i + 1).last() == li as int);
        let node = &doc.nodes[li];
        assert(doc@[li as int] == node@);
        if node.is_element && str_eq(node.name.as_str(), "li") {
            let (title, href) = li_label_exec(doc, li);
            let kids_of_li = match doc.child_element(li, "ol") {
                Some(o) => parse_ol_depth(doc, o, depth + 1),
                None => Vec::new(),
            };
            let e = TocEntry { title, href, children: kids_of_li };
            proof {
                lemma_toc_list_view_push(entries@, e);
            }
            entries.push(e);
        }
        i += 1;
    }
    proof {
        assert(cs.take(m as int) =~= cs);
    }
    entries
}

/// Whether some attribute is named `type` with the value `toc`.
fn has_toc_type_exec(doc: &XmlDoc, j: usize) -> (res: bool)
    requires
        j < doc@.len(),
    ensures
        res == has_toc_type(doc@[j as int].attributes),
{
    proof {
        reveal_strlit("type");
        reveal_strlit("toc");
    }
    let attrs = &doc.nodes[j].attributes;
    let ghost av = doc@[j as int].attributes;
    assert(av == attrs@.map_values(|a: crate::xml::XmlAttr| a@));
    let n = attrs.len();
    let mut k: usize = 0;
    while k < n
        invariant
            k <= n,
            n == attrs@.len(),
            av == attrs@.map_values(|a: crate::xml::XmlAttr| a@),
            av == doc@[j as int].attributes,
            forall|t: int| 0 <= t < k ==> !((#[trigger] av[t]).name == "type"@ && av[t].value == "toc"@),
        decreases n - k,
    {
        assert(av[k as int] == attrs@[k as int]@);
        if str_eq(attrs[k].name.as_str(), "type") && str_eq(attrs[k].value.as_str(), "toc") {
            assert(av[k as int].name == "type"@ && av[k as int].value == "toc"@);
            assert(0 <= k < av.len());
            return true;
        }
        k += 1;
    }
    false
}

/// The `nav` element holding the table of contents.
fn find_toc_nav(doc: &XmlDoc) -> (res: Option<usize>)
    ensures
        res matches Some(k) ==> k < doc@.len() && Some(k as int) == (match toc_nav_from(doc@, 0) {
            Some(n) => Some(n),
            None => any_toc_nav_from(doc@, 0),
        }),
        res is None ==> toc_nav_from(doc@, 0) is None && any_toc_nav_from(doc@, 0) is None,
{
    proof {
        reveal_strlit("nav");
        reveal_strlit("toc");
        reveal_strlit("type");
    }
    let n = doc.nodes.len();
    let mut j: usize = 0;
    while j < n
        invariant
            j <= n,
            n == doc@.len(),
            toc_nav_from(doc@, 0) == toc_nav_from(doc@, j as int),
        decreases n - j,
    {
        assert(doc@[j as int] == doc.nodes@[j as int]@);
        if str_eq(doc.nodes[j].name.as_str(), "nav") {
            if let Some(t) = doc.attribute(j, Some(EPUB_OPS_NS), "type") {
                if str_eq(t, "toc") {
                    return Some(j);
                }
            }
        }
        j += 1;
    }
    let mut j: usize = 0;
    while j < n
        invariant
            j <= n,
            n == doc@.len(),
            toc_nav_from(doc@, 0) is None,
            any_toc_nav_from(doc@, 0) == any_toc_nav_from(doc@, j as int),
        decreases n - j,
    {
        assert(doc@[j as int] == doc.nodes@[j as int]@);
        if str_eq(doc.nodes[j].name.as_str(), "nav") && has_toc_type_exec(doc, j) {
            return Some(j);
        }
        j += 1;
    }
    None
}

/// The table of contents of a parsed Nav document.
pub fn nav_toc(doc: &XmlDoc) -> (res: Vec<TocEntry>)
    ensures
        toc_list_view(res@) == nav_toc_of(doc@),
{
    match find_toc_nav(doc) {
        Some(nav) => match doc.child_element(nav, "ol") {
            Some(ol) => parse_ol_depth(doc, ol, 0),
            None => Vec::new(),
        },
        None => Vec::new(),
    }
}

/// Parse an EPUB3 Navigation Document (XHTML with <nav epub:type="toc">).
pub fn parse_nav(xhtml: &str) -> (res: Result<Vec<TocEntry>, EpubError>)
    ensures
        match xml_parse(xhtml@) {
            None => res matches Err(e) && e is Xml,
            Some(ns) => res matches Ok(v) && toc_list_view(v@) == nav_toc_of(ns),
        },
{
    match parse_xml(xhtml) {
        Ok(doc) => Ok(nav_toc(&doc)),
        Err(e) => Err(EpubError::Xml(e)),
    }
}

} // verus!
