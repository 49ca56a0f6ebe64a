//! Qualified names of rendered elements and attributes.

use crate::text::{eq_ignore_ascii_case, has_prefix, lowercase, same_ignoring_case, strip_prefix,
    text_eq, to_ascii_lowercase};
use vstd::prelude::*;

verus! {

/// Namespace of HTML elements.
pub const HTML_NS: &'static str = "http://www.w3.org/1999/xhtml";

/// Namespace of SVG elements.
pub const SVG_NS: &'static str = "http://www.w3.org/2000/svg";

/// Namespace of MathML elements.
pub const MATHML_NS: &'static str = "http://www.w3.org/1998/Math/MathML";

/// Namespace of `xlink:` attributes.
pub const XLINK_NS: &'static str = "http://www.w3.org/1999/xlink";

/// Namespace of `xml:` attributes.
pub const XML_NS: &'static str = "http://www.w3.org/XML/1998/namespace";

/// Namespace of namespace declarations.
pub const XMLNS_NS: &'static str = "http://www.w3.org/2000/xmlns/";

/// A name with its namespace.
#[derive(Debug)]
pub struct QualName {
    pub prefix: Option<String>,
    pub ns: String,
    pub local: String,
}

/// The view of [`QualName`].
pub struct QualNameView {
    pub prefix: Option<Seq<char>>,
    pub ns: Seq<char>,
    pub local: Seq<char>,
}

impl View for QualName {
    type V = QualNameView;

    open spec fn view(&self) -> QualNameView {
        QualNameView {
            prefix: match self.prefix {
                Some(p) => Some(p@),
                None => None,
            },
            ns: self.ns@,
            local: self.local@,
        }
    }
}

impl Clone for QualName {
    fn clone(&self) -> (res: Self)
        ensures
            res@ == self@,
    {
        QualName {
            prefix: match &self.prefix {
                Some(p) => Some(p.clone()),
                None => None,
            },
            ns: self.ns.clone(),
            local: self.local.clone(),
        }
    }
}

/// Whether two names are equal in prefix, namespace and local part.
pub fn same_name(a: &QualName, b: &QualName) -> (res: bool)
    ensures
        res == (a@ == b@),
{
    let prefixes = match (&a.prefix, &b.prefix) {
        (Some(p), Some(q)) => text_eq(p.as_str(), q.as_str()),
        (None, None) => true,
        _ => false,
    };
    prefixes && text_eq(a.ns.as_str(), b.ns.as_str()) && text_eq(
        a.local.as_str(),
        b.local.as_str(),
    )
}

/// The namespace of an element: `svg` and `math` enter theirs, other elements
/// stay in the foreign namespace of their parent, and everything else is HTML.
pub open spec fn element_namespace(name: Seq<char>, parent_ns: Seq<char>) -> Seq<char> {
    if lowercase(name) == "svg"@ {
        SVG_NS@
    } else if lowercase(name) == "math"@ {
        MATHML_NS@
    } else if parent_ns == SVG_NS@ {
        SVG_NS@
    } else if parent_ns == MATHML_NS@ {
        MATHML_NS@
    } else {
        HTML_NS@
    }
}

/// The namespace that the children of an element start from: `foreignObject`
/// leads back from SVG to HTML.
pub open spec fn children_namespace(name: Seq<char>, element_ns: Seq<char>) -> Seq<char> {
    if element_ns == SVG_NS@ && same_ignoring_case(name, "foreignObject"@) {
        HTML_NS@
    } else {
        element_ns
    }
}

/// The qualified name of an element below a parent of namespace `parent_ns`.
pub open spec fn element_name(name: Seq<char>, parent_ns: Seq<char>) -> QualNameView {
    QualNameView { prefix: None, ns: element_namespace(name, parent_ns), local: name }
}

/// The qualified name of an attribute: `xlink:`, `xml:` and `xmlns:` are
/// prefixes, and `xmlns` is itself a namespace declaration.
pub open spec fn attribute_name(name: Seq<char>) -> QualNameView {
    if has_prefix(name, "xlink:"@) {
        QualNameView { prefix: Some("xlink"@), ns: XLINK_NS@, local: name.skip("xlink:"@.len() as int) }
    } else if has_prefix(name, "xml:"@) {
        QualNameView { prefix: Some("xml"@), ns: XML_NS@, local: name.skip("xml:"@.len() as int) }
    } else if has_prefix(name, "xmlns:"@) {
        QualNameView { prefix: Some("xmlns"@), ns: XMLNS_NS@, local: name.skip("xmlns:"@.len() as int) }
    } else if name == "xmlns"@ {
        QualNameView { prefix: None, ns: XMLNS_NS@, local: "xmlns"@ }
    } else {
        QualNameView { prefix: None, ns: Seq::empty(), local: name }
    }
}

/// A qualified name as it is written in markup.
pub open spec fn written(name: QualNameView) -> Seq<char> {
    match name.prefix {
        Some(p) => p + ":"@ + name.local,
        None => name.local,
    }
}

pub fn namespace_for_element(name: &str, parent_ns: &str) -> (res: String)
    ensures
        res@ == element_namespace(name@, parent_ns@),
{
    let lower = to_ascii_lowercase(name);
    if text_eq(lower.as_str(), "svg") {
        SVG_NS.to_owned()
    } else if text_eq(lower.as_str(), "math") {
        MATHML_NS.to_owned()
    } else if text_eq(parent_ns, SVG_NS) {
        SVG_NS.to_owned()
    } else if text_eq(parent_ns, MATHML_NS) {
        MATHML_NS.to_owned()
    } else {
        HTML_NS.to_owned()
    }
}

pub fn namespace_for_children(name: &str, element_ns: &str) -> (res: String)
    ensures
        res@ == children_namespace(name@, element_ns@),
{
    if text_eq(element_ns, SVG_NS) && eq_ignore_ascii_case(name, "foreignObject") {
        HTML_NS.to_owned()
    } else {
        element_ns.to_owned()
    }
}

pub fn element_qual_name_from_str(name: &str, parent_ns: &str) -> (res: QualName)
    ensures
        res@ == element_name(name@, parent_ns@),
{
    QualName { prefix: None, ns: namespace_for_element(name, parent_ns), local: name.to_owned() }
}

pub fn attr_qual_name_from_str(name: &str) -> (res: QualName)
    ensures
        res@ == attribute_name(name@),
{
    if let Some(local) = strip_prefix(name, "xlink:") {
        return QualName {
            prefix: Some("xlink".to_owned()),
            ns: XLINK_NS.to_owned(),
            local,
        };
    }
    if let Some(local) = strip_prefix(name, "xml:") {
        return QualName { prefix: Some("xml".to_owned()), ns: XML_NS.to_owned(), local };
    }
    if let Some(local) = strip_prefix(name, "xmlns:") {
        return QualName {
            prefix: Some("xmlns".to_owned()),
            ns: XMLNS_NS.to_owned(),
            local,
        };
    }
    if text_eq(name, "xmlns") {
        return QualName { prefix: None, ns: XMLNS_NS.to_owned(), local: "xmlns".to_owned() };
    }
    let ns = String::new();
    assert(ns@ == Seq::<char>::empty());
    QualName { prefix: None, ns, local: name.to_owned() }
}

pub fn attr_qual_name_to_string(name: &QualName) -> (res: String)
    ensures
        res@ == written(name@),
{
    match &name.prefix {
        Some(p) => {
            let mut res = p.clone();
            res.push_str(":");
            res.push_str(name.local.as_str());
            res
        },
        None => name.local.clone(),
    }
}

/// An attribute name read into a qualified name is written as it was.
pub proof fn law_attribute_names_round_trip(name: Seq<char>)
    ensures
        written(attribute_name(name)) == name,
{
    reveal_strlit("xlink:");
    reveal_strlit("xml:");
    reveal_strlit("xmlns:");
    reveal_strlit("xlink");
    reveal_strlit("xml");
    reveal_strlit("xmlns");
    reveal_strlit(":");
    if has_prefix(name, "xlink:"@) {
        assert("xlink"@ + ":"@ =~= "xlink:"@);
        assert("xlink:"@ + name.skip(6) =~= name);
    } else if has_prefix(name, "xml:"@) {
        assert("xml"@ + ":"@ =~= "xml:"@);
        assert("xml:"@ + name.skip(4) =~= name);
    } else if has_prefix(name, "xmlns:"@) {
        assert("xmlns"@ + ":"@ =~= "xmlns:"@);
        assert("xmlns:"@ + name.skip(6) =~= name);
    }
}

} // verus!
