//! `META-INF/container.xml`: where the package document is.
use vstd::prelude::*;
use crate::errors::EpubError;
use crate::errors::xml_error_text;
use crate::xml::{XmlDoc, NodeView, attr, opt_str, parse_xml, xml_parse};

verus! {

/// The namespace of the container document.
pub const CONTAINER_NS: &'static str = "urn:oasis:names:tc:opendocument:xmlns:container";

/// The `full-path` of the first `rootfile` element of the container
/// namespace that has one, from node `j` on.
pub open spec fn rootfile_from(ns: Seq<NodeView>, j: int) -> Option<Seq<char>>
    decreases ns.len() - j,
{
    if j < 0 || j >= ns.len() {
        None
    } else if ns[j].namespace == Some(CONTAINER_NS@) && ns[j].name == "rootfile"@ && attr(
        ns,
        j,
        None,
        "full-path"@,
    ) is Some {
        attr(ns, j, None, "full-path"@)
    } else {
        rootfile_from(ns, j + 1)
    }
}

/// The path of the package document named by a parsed container document.
pub fn rootfile_path(doc: &XmlDoc) -> (res: Option<String>)
    ensures
        opt_str(res) == rootfile_from(doc@, 0),
{
    proof {
        reveal_strlit("rootfile");
        reveal_strlit("full-path");
    }
    let n = doc.nodes.len();
    let mut j: usize = 0;
    while j < n
        invariant
            j <= n,
            n == doc@.len(),
            rootfile_from(doc@, 0) == rootfile_from(doc@, j as int),
        decreases n - j,
    {
        let node = &doc.nodes[j];
        assert(doc@[j as int] == node@);
        let in_ns = match &node.namespace {
            Some(u) => crate::text::str_eq(u.as_str(), CONTAINER_NS),
            None => false,
        };
        if in_ns && crate::text::str_eq(node.name.as_str(), "rootfile") {
            if let Some(path) = doc.attribute(j, None, "full-path") {
                return Some(path.to_owned());
            }
        }
        j += 1;
    }
    None
}

/// Parse META-INF/container.xml and return the full-path to the OPF file.
/// Malformed XML is refused as an invalid package, as for the package
/// document itself.
pub fn parse_container(xml: &str) -> (res: Result<String, EpubError>)
    ensures
        match xml_parse(xml@) {
            None => res matches Err(e) && e is InvalidOpf,
            Some(ns) => match rootfile_from(ns, 0) {
                Some(p) => res matches Ok(s) && s@ == p,
                None => res matches Err(e) && e is MissingRootfile,
            },
        },
{
    let doc = match parse_xml(xml) {
        Ok(d) => d,
        Err(e) => {
            return Err(EpubError::InvalidOpf(xml_error_text(&e)));
        },
    };
    match rootfile_path(&doc) {
        Some(p) => Ok(p),
        None => Err(EpubError::MissingRootfile),
    }
}

} // verus!
