//! XML documents as parsed by the `roxmltree` crate, held as plain values:
//! the nodes in document order, each with its parent's index.
use vstd::prelude::*;
use crate::text::str_eq;
use crate::errors::EpubError;

verus! {

/// An attribute: its namespace URI, local name and value.
pub struct XmlAttr {
    pub namespace: Option<String>,
    pub name: String,
    pub value: String,
}

/// A node of a document.
pub struct XmlNode {
    pub is_element: bool,
    pub is_text: bool,
    /// The namespace URI of an element's name.
    pub namespace: Option<String>,
    /// An element's local name; empty for other nodes.
    pub name: String,
    /// For an element, the text of its first child when that child is a text
    /// node; for a text or comment node, its text.
    pub text: Option<String>,
    /// The index of the parent node; the document root has none.
    pub parent: Option<usize>,
    /// An element's attributes, namespace declarations excluded.
    pub attributes: Vec<XmlAttr>,
}

/// A parsed document: its nodes in document order, the root first.
pub struct XmlDoc {
    pub nodes: Vec<XmlNode>,
}

/// An attribute as the contracts see it.
pub struct AttrView {
    pub namespace: Option<Seq<char>>,
    pub name: Seq<char>,
    pub value: Seq<char>,
}

/// A node as the contracts see it.
pub struct NodeView {
    pub is_element: bool,
    pub is_text: bool,
    pub namespace: Option<Seq<char>>,
    pub name: Seq<char>,
    pub text: Option<Seq<char>>,
    pub parent: Option<usize>,
    pub attributes: Seq<AttrView>,
}

/// The view of an optional string.
pub open spec fn opt_str(o: Option<String>) -> Option<Seq<char>> {
    match o {
        Some(s) => Some(s@),
        None => None,
    }
}

impl View for XmlAttr {
    type V = AttrView;

    open spec fn view(&self) -> AttrView {
        AttrView { namespace: opt_str(self.namespace), name: self.name@, value: self.value@ }
    }
}

impl View for XmlNode {
    type V = NodeView;

    open spec fn view(&self) -> NodeView {
        NodeView {
            is_element: self.is_element,
            is_text: self.is_text,
            namespace: opt_str(self.namespace),
            name: self.name@,
            text: opt_str(self.text),
            parent: self.parent,
            attributes: self.attributes@.map_values(|a: XmlAttr| a@),
        }
    }
}

impl View for XmlDoc {
    type V = Seq<NodeView>;

    open spec fn view(&self) -> Seq<NodeView> {
        self.nodes@.map_values(|n: XmlNode| n@)
    }
}

/// The nodes of the document that `roxmltree::Document::parse` makes of
/// `text`, or `None` when it refuses the text.
pub uninterp spec fn xml_parse(text: Seq<char>) -> Option<Seq<NodeView>>;

/// Parses `text` with `roxmltree::Document::parse` and lists its nodes in
/// document order (`Document::descendants`), each converted field by field,
/// with its parent as an index (`NodeId::get_usize`).
#[verifier::external_body]
pub(crate) fn parse_xml(text: &str) -> (res: Result<XmlDoc, roxmltree::Error>)
    ensures
        res matches Ok(d) ==> xml_parse(text@) == Some(d@),
        res is Err ==> xml_parse(text@) is None,
{
    let doc = roxmltree::Document::parse(text)?;
    let nodes = doc.descendants().map(|n| XmlNode {
        is_element: n.is_element(),
        is_text: n.is_text(),
        namespace: n.tag_name().namespace().map(String::from),
        name: n.tag_name().name().into(),
        text: n.text().map(String::from),
        parent: n.parent().map(|p| p.id().get_usize()),
        attributes: n.attributes().map(|a| XmlAttr { namespace: a.namespace().map(String::from), name: a.name().into(), value: a.value().into() }).collect(),
    });
    Ok(XmlDoc { nodes: nodes.collect() })
}

/// Parse an XML document, its refusal as the book's XML error.
pub fn parse_document(text: &str) -> (res: Result<XmlDoc, EpubError>)
    ensures
        res matches Ok(d) ==> xml_parse(text@) == Some(d@),
        res matches Err(e) ==> xml_parse(text@) is None && e is Xml,
        xml_parse(text@) is None ==> res is Err,
{
    match parse_xml(text) {
        Ok(d) => Ok(d),
        Err(e) => Err(EpubError::Xml(e)),
    }
}

// ---------------------------------------------------------------------------
// The tree
// ---------------------------------------------------------------------------

/// The parent of node `j`, when it comes before `j`.
pub open spec fn parent_of(ns: Seq<NodeView>, j: int) -> Option<int> {
    match ns[j].parent {
        Some(q) => if (q as int) < j {
            Some(q as int)
        } else {
            None
        },
        None => None,
    }
}

/// Node `j` is node `p` or lies below it.
pub open spec fn in_subtree(ns: Seq<NodeView>, j: int, p: int) -> bool
    decreases j,
{
    if j == p {
        true
    } else if j < p || j < 0 || j >= ns.len() {
        false
    } else {
        match parent_of(ns, j) {
            Some(q) => in_subtree(ns, q, p),
            None => false,
        }
    }
}

/// The first node from `j` on, within the run of nodes below `p` that
/// starts there, whose local name is `name`.
pub open spec fn named_from(ns: Seq<NodeView>, p: int, j: int, name: Seq<char>) -> Option<int>
    decreases ns.len() - j,
{
    if j < 0 || j >= ns.len() || !in_subtree(ns, j, p) {
        None
    } else if ns[j].name == name {
        Some(j)
    } else {
        named_from(ns, p, j + 1, name)
    }
}

/// The first of node `p` and the nodes below it whose local name is `name`,
/// in document order.
pub open spec fn find_named(ns: Seq<NodeView>, p: int, name: Seq<char>) -> Option<int> {
    named_from(ns, p, p, name)
}

/// The children of `p` among the nodes from `j` on, in document order.
pub open spec fn children_from(ns: Seq<NodeView>, p: int, j: int) -> Seq<int>
    decreases ns.len() - j,
{
    if j < 0 || j >= ns.len() || !in_subtree(ns, j, p) {
        Seq::empty()
    } else {
        let rest = children_from(ns, p, j + 1);
        if parent_of(ns, j) == Some(p) {
            seq![j] + rest
        } else {
            rest
        }
    }
}

/// The children of `p`, in document order.
pub open spec fn children(ns: Seq<NodeView>, p: int) -> Seq<int> {
    children_from(ns, p, p + 1)
}

/// The first of the listed nodes that is an element named `name`.
pub open spec fn first_element_in(ns: Seq<NodeView>, ks: Seq<int>, name: Seq<char>) -> Option<int>
    decreases ks.len(),
{
    if ks.len() == 0 {
        None
    } else if ns[ks[0]].is_element && ns[ks[0]].name == name {
        Some(ks[0])
    } else {
        first_element_in(ns, ks.drop_first(), name)
    }
}

/// The first child of `p` that is an element named `name`.
pub open spec fn child_element(ns: Seq<NodeView>, p: int, name: Seq<char>) -> Option<int> {
    first_element_in(ns, children(ns, p), name)
}

/// The value of the first attribute in `attrs` from index `k` on with
/// namespace `uri` and local name `name`.
pub open spec fn attr_from(attrs: Seq<AttrView>, uri: Option<Seq<char>>, name: Seq<char>, k: int) -> Option<
    Seq<char>,
>
    decreases attrs.len() - k,
{
    if k < 0 || k >= attrs.len() {
        None
    } else if attrs[k].namespace == uri && attrs[k].name == name {
        Some(attrs[k].value)
    } else {
        attr_from(attrs, uri, name, k + 1)
    }
}

/// The value of the attribute of node `j` with namespace `uri` and local
/// name `name`.
pub open spec fn attr(ns: Seq<NodeView>, j: int, uri: Option<Seq<char>>, name: Seq<char>) -> Option<Seq<char>> {
    attr_from(ns[j].attributes, uri, name, 0)
}

/// The text of the text nodes below `p`, from node `j` on, in document order.
pub open spec fn text_from(ns: Seq<NodeView>, p: int, j: int) -> Seq<char>
    decreases ns.len() - j,
{
    if j < 0 || j >= ns.len() || !in_subtree(ns, j, p) {
        Seq::empty()
    } else {
        let here = if ns[j].is_text {
            match ns[j].text {
                Some(t) => t,
                None => Seq::empty(),
            }
        } else {
            Seq::empty()
        };
        here + text_from(ns, p, j + 1)
    }
}

/// All the text below node `p`, in document order.
pub open spec fn inner_text(ns: Seq<NodeView>, p: int) -> Seq<char> {
    text_from(ns, p, p + 1)
}

impl XmlDoc {
    /// Whether node `j` is node `p` or lies below it.
    pub fn in_subtree(&self, j: usize, p: usize) -> (res: bool)
        requires
            j < self@.len(),
        ensures
            res == in_subtree(self@, j as int, p as int),
        decreases j,
    {
        if j == p {
            true
        } else if j < p {
            false
        } else {
            match self.nodes[j].parent {
                Some(q) => if q < j {
                    self.in_subtree(q, p)
                } else {
                    false
                },
                None => false,
            }
        }
    }

    /// The first of node `p` and the nodes below it named `name`.
    pub fn find_named(&self, p: usize, name: &str) -> (res: Option<usize>)
        requires
            p < self@.len(),
        ensures
            res matches Some(k) ==> find_named(self@, p as int, name@) == Some(k as int) && k < self@.len(),
            res is None ==> find_named(self@, p as int, name@) is None,
    {
        let n = self.nodes.len();
        let mut j = p;
        while j < n
            invariant
                p <= j <= n,
                n == self@.len(),
                find_named(self@, p as int, name@) == named_from(self@, p as int, j as int, name@),
            decreases n - j,
        {
            if !self.in_subtree(j, p) {
                return None;
            }
            if str_eq(self.nodes[j].name.as_str(), name) {
                return Some(j);
            }
            j += 1;
        }
        None
    }

    /// The children of `p`, in document order.
    pub fn children(&self, p: usize) -> (res: Vec<usize>)
        requires
            p < self@.len(),
        ensures
            res@.len() == children(self@, p as int).len(),
            forall|i: int| 0 <= i < res@.len() ==> res@[i] as int == children(self@, p as int)[i],
            forall|i: int| 0 <= i < res@.len() ==> res@[i] < self@.len(),
    {
        let n = self.nodes.len();
        let mut out: Vec<usize> = Vec::new();
        let mut j = p + 1;
        while j < n
            invariant
                p < j <= n,
                n == self@.len(),
                children(self@, p as int) == out@.map_values(|x: usize| x as int) + children_from(
                    self@,
                    p as int,
                    j as int,
                ),
                forall|i: int| 0 <= i < out@.len() ==> out@[i] < n,
            ensures
                children(self@, p as int) == out@.map_values(|x: usize| x as int),
                forall|i: int| 0 <= i < out@.len() ==> out@[i] < n,
            decreases n - j,
        {
            if !self.in_subtree(j, p) {
                proof {
                    assert(children_from(self@, p as int, j as int) =~= Seq::<int>::empty());
                    assert(out@.map_values(|x: usize| x as int) + Seq::<int>::empty() =~= out@.map_values(|x: usize| x as int));
                }
                break;
            }
            let ghost before = out@;
            if self.nodes[j].parent == Some(p) {
                out.push(j);
                proof {
                    assert(out@.map_values(|x: usize| x as int) =~= before.map_values(|x: usize| x as int)
                        + seq![j as int]);
                }
            }
            j += 1;
        }
        proof {
            assert forall|i: int| 0 <= i < out@.len() implies out@[i] as int == children(self@, p as int)[i] by {
                assert(out@.map_values(|x: usize| x as int)[i] == out@[i] as int);
            }
        }
        out
    }

    /// The first child of `p` that is an element named `name`.
    pub fn child_element(&self, p: usize, name: &str) -> (res: Option<usize>)
        requires
            p < self@.len(),
        ensures
            res matches Some(k) ==> child_element(self@, p as int, name@) == Some(k as int) && k < self@.len(),
            res is None ==> child_element(self@, p as int, name@) is None,
    {
        let kids = self.children(p);
        let m = kids.len();
        let ghost cs = children(self@, p as int);
        let mut i: usize = 0;
        assert(cs.subrange(0, m as int) =~= cs);
        while i < m
            invariant
                i <= m,
                m == kids@.len(),
                m == cs.len(),
                cs == children(self@, p as int),
                forall|t: int| 0 <= t < m ==> kids@[t] as int == cs[t],
                forall|t: int| 0 <= t < m ==> kids@[t] < self@.len(),
                child_element(self@, p as int, name@) == first_element_in(self@, cs.subrange(i as int, m as int), name@),
            decreases m - i,
        {
            let k = kids[i];
            proof {
                assert(cs.subrange(i as int, m as int)[0] == k as int);
                assert(cs.subrange(i as int, m as int).drop_first() =~= cs.subrange(i + 1, m as int));
            }
            if self.nodes[k].is_element && str_eq(self.nodes[k].name.as_str(), name) {
                return Some(k);
            }
            i += 1;
        }
        None
    }

    /// The value of the attribute of node `j` with namespace `uri` (none for
    /// an attribute without namespace) and local name `name`.
    pub fn attribute(&self, j: usize, uri: Option<&str>, name: &str) -> (res: Option<&str>)
        requires
            j < self@.len(),
        ensures
            crate::text::opt_view(res) == attr(self@, j as int, crate::text::opt_view(uri), name@),
    {
        let attrs = &self.nodes[j].attributes;
        let ghost av = self@[j as int].attributes;
        let n = attrs.len();
        let mut k: usize = 0;
        while k < n
            invariant
                k <= n,
                n == attrs@.len(),
                av == attrs@.map_values(|a: XmlAttr| a@),
                attr(self@, j as int, crate::text::opt_view(uri), name@) == attr_from(
                    av,
                    crate::text::opt_view(uri),
                    name@,
                    k as int,
                ),
            decreases n - k,
        {
            let a = &attrs[k];
            assert(av[k as int] == a@);
            let same_ns = match (&a.namespace, uri) {
                (Some(x), Some(y)) => str_eq(x.as_str(), y),
                (None, None) => true,
                _ => false,
            };
            if same_ns && str_eq(a.name.as_str(), name) {
                return Some(a.value.as_str());
            }
            k += 1;
        }
        None
    }

    /// All the text below node `p`, in document order.
    pub fn inner_text(&self, p: usize) -> (res: String)
        requires
            p < self@.len(),
        ensures
            res@ == inner_text(self@, p as int),
    {
        let n = self.nodes.len();
        let mut out = String::new();
        let mut j = p + 1;
        while j < n
            invariant
                p < j <= n,
                n == self@.len(),
                inner_text(self@, p as int) == out@ + text_from(self@, p as int, j as int),
            ensures
                inner_text(self@, p as int) == out@,
            decreases n - j,
        {
            if !self.in_subtree(j, p) {
                proof {
                    assert(text_from(self@, p as int, j as int) =~= Seq::<char>::empty());
                    assert(out@ + Seq::<char>::empty() =~= out@);
                }
                break;
            }
            let ghost before = out@;
            if self.nodes[j].is_text {
                if let Some(t) = &self.nodes[j].text {
                    crate::text::push_str(&mut out, t.as_str());
                }
            }
            proof {
                assert(text_from(self@, p as int, j as int) == (if self@[j as int].is_text {
                    match self@[j as int].text {
                        Some(t) => t,
                        None => Seq::<char>::empty(),
                    }
                } else {
                    Seq::<char>::empty()
                }) + text_from(self@, p as int, j + 1));
                assert(inner_text(self@, p as int) =~= out@ + text_from(self@, p as int, j + 1));
            }
            j += 1;
        }
        out
    }
}

} // verus!
