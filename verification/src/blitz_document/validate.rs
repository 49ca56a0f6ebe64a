//! Integrity of the mirror.
//!
//! A mirror is intact when its two maps say the same, every rendered node is
//! what its node in the document calls for, and the rendered children of every
//! node are the rendered ones among its composed children.

use crate::blitz_document::maps::{child_nodes_for_blitz, composable, paired, rendered_children,
    Mirror};
use crate::blitz_document::names::{attr_qual_name_to_string, written};
use crate::blitz_document::render::{element_of, node_at, value_of, RenderAttributeView, RenderData,
    RenderDataView, RenderElement, RenderNode, RenderNodeView, RenderTree, RenderView};
use crate::dom::attributes::{in_order, Attributes, Pair};
use crate::dom::node::{parent_of, parent_ptr, Dom, DomView, ElementView, Node, NodePtr, NodeView};
use crate::dom::shadow::{distributed, is_root_at, ShadowTreeBackend, SyntheticShadowTreeBackend};
use crate::order::{in_increasing_order, lemma_listing_exists, lists, sorted_keys};
use crate::text::{debug_form, decimal, list_text, option_text, push_debug, push_decimal, push_list,
    push_option, text_eq};
use std::collections::BTreeMap;
use vstd::prelude::*;

verus! {

broadcast use vstd::std_specs::btree::group_btree_axioms;

/// Where and how a mirror is broken.
#[derive(Debug)]
pub struct MirrorIntegrityError {
    pub operation: &'static str,
    pub legacy_node: Option<usize>,
    pub blitz_node: Option<usize>,
    pub message: String,
}

/// The view of [`MirrorIntegrityError`].
pub struct Fault {
    pub operation: Seq<char>,
    pub legacy_node: Option<usize>,
    pub blitz_node: Option<usize>,
    pub message: Seq<char>,
}

impl View for MirrorIntegrityError {
    type V = Fault;

    open spec fn view(&self) -> Fault {
        Fault {
            operation: self.operation@,
            legacy_node: self.legacy_node,
            blitz_node: self.blitz_node,
            message: self.message@,
        }
    }
}

/// Whether an outcome is what a fault, if there is one, calls for.
pub open spec fn reports(res: Result<(), MirrorIntegrityError>, fault: Option<Fault>) -> bool {
    match res {
        Ok(_) => fault is None,
        Err(e) => fault == Some(e@),
    }
}

impl MirrorIntegrityError {
    pub fn new(
        operation: &'static str,
        legacy_node: Option<usize>,
        blitz_node: Option<usize>,
        message: String,
    ) -> (res: Self)
        ensures
            res@ == (Fault {
                operation: operation@,
                legacy_node,
                blitz_node,
                message: message@,
            }),
    {
        MirrorIntegrityError { operation, legacy_node, blitz_node, message }
    }
}

/// Attributes by their written names; of two with the same name the later one
/// counts.
pub open spec fn attributes_by_name(attrs: Seq<RenderAttributeView>) -> Map<Seq<char>, Seq<char>>
    decreases attrs.len(),
{
    if attrs.len() == 0 {
        Map::empty()
    } else {
        attributes_by_name(attrs.drop_last()).insert(
            written(attrs.last().name),
            attrs.last().value,
        )
    }
}

/// The first of the pairs that `m` does not hold.
pub open spec fn first_unmatched(pairs: Seq<Pair>, m: Map<Seq<char>, Seq<char>>) -> Option<
    Seq<char>,
>
    decreases pairs.len(),
{
    if pairs.len() == 0 {
        None
    } else if !(m.contains_key(pairs[0].0) && m[pairs[0].0] == pairs[0].1) {
        Some(pairs[0].0)
    } else {
        first_unmatched(pairs.drop_first(), m)
    }
}

/// The first of the pairs whose name is no key of `m`.
pub open spec fn first_unknown(pairs: Seq<Pair>, m: Map<Seq<char>, Seq<char>>) -> Option<Seq<char>>
    decreases pairs.len(),
{
    if pairs.len() == 0 {
        None
    } else if !m.contains_key(pairs[0].0) {
        Some(pairs[0].0)
    } else {
        first_unknown(pairs.drop_first(), m)
    }
}

/// What is wrong with the rendered node of an element.
pub open spec fn element_fault(el: ElementView, data: RenderDataView) -> Option<Seq<char>> {
    match element_of(data) {
        None => Some("legacy element maps to non-element Blitz node"@),
        Some(shown) => {
            let attrs = attributes_by_name(shown.attrs);
            if shown.name.local != el.tag_name {
                Some(
                    "tag mismatch: legacy=<"@ + el.tag_name + "> blitz=<"@ + shown.name.local
                        + ">"@,
                )
            } else if first_unmatched(in_order(el.attributes), attrs) is Some {
                Some(
                    "attribute mismatch for "@ + debug_form(
                        first_unmatched(in_order(el.attributes), attrs)->0,
                    ),
                )
            } else if first_unknown(in_order(attrs), el.attributes) is Some {
                Some(
                    "unexpected Blitz attribute "@ + debug_form(
                        first_unknown(in_order(attrs), el.attributes)->0,
                    ),
                )
            } else {
                None
            }
        },
    }
}

/// What is wrong with the rendered container of the shadow root `n`.
pub open spec fn shadow_fault(
    d: DomView,
    to_blitz: Map<usize, usize>,
    n: NodePtr,
    node: RenderNodeView,
) -> Option<Seq<char>> {
    match element_of(node.data) {
        None => Some("shadow root maps to non-element Blitz node"@),
        Some(shown) => if shown.name.local != "div"@ {
            Some(
                "shadow root synthetic node is <"@ + shown.name.local + ">, expected <div>"@,
            )
        } else if value_of(node.data, "data-aurora-shadow-root"@) != Some("true"@) {
            Some("shadow root synthetic node is missing data-aurora-shadow-root=true"@)
        } else {
            match parent_of(d[n as int]) {
                None => Some("shadow root has no legacy host parent"@),
                Some(host) => if to_blitz.contains_key(host) && node.parent != Some(
                    to_blitz[host],
                ) {
                    Some(
                        "shadow root parent mismatch: blitz="@ + option_text(node.parent)
                            + " expected="@ + decimal(to_blitz[host] as nat),
                    )
                } else {
                    match d[host as int] {
                        NodeView::Element(el) => if value_of(
                            node.data,
                            "data-aurora-shadow-host"@,
                        ) != Some(el.tag_name) {
                            Some("shadow host marker mismatch: expected "@ + el.tag_name)
                        } else {
                            None
                        },
                        _ => None,
                    }
                },
            }
        },
    }
}

/// What is wrong with the rendered node of `n`, its children aside.
pub open spec fn data_fault(
    d: DomView,
    to_blitz: Map<usize, usize>,
    n: NodePtr,
    node: RenderNodeView,
) -> Option<Seq<char>> {
    match d[n as int] {
        NodeView::Document { children, mode } => if node.data is Document || element_of(
            node.data,
        ) is Some {
            None
        } else {
            Some("legacy document maps to non-document/non-fragment Blitz node"@)
        },
        NodeView::Text { content, parent } => match node.data {
            RenderDataView::Text(shown) => if shown == content {
                None
            } else {
                Some(
                    "text mismatch: legacy="@ + debug_form(content) + " blitz="@ + debug_form(
                        shown,
                    ),
                )
            },
            _ => Some("legacy text node maps to non-text Blitz node"@),
        },
        NodeView::Comment { content, parent } => if node.data is Comment {
            None
        } else {
            Some("legacy comment node maps to non-comment Blitz node"@)
        },
        NodeView::Element(el) => if is_root_at(d, n) {
            shadow_fault(d, to_blitz, n, node)
        } else {
            element_fault(el, node.data)
        },
    }
}

/// The ids of the nodes that are rendered, in order.
pub open spec fn ids_of(kids: Seq<NodePtr>, to_blitz: Map<usize, usize>) -> Seq<usize>
    decreases kids.len(),
{
    if kids.len() == 0 {
        Seq::empty()
    } else if to_blitz.contains_key(kids.last()) {
        ids_of(kids.drop_last(), to_blitz).push(to_blitz[kids.last()])
    } else {
        ids_of(kids.drop_last(), to_blitz)
    }
}

/// What is wrong with the child `child` of the rendered node `blitz_id`.
pub open spec fn child_fault(
    operation: Seq<char>,
    t: RenderView,
    legacy_id: usize,
    blitz_id: usize,
    child: usize,
) -> Option<Fault> {
    match node_at(t, child) {
        None => Some(
            Fault {
                operation,
                legacy_node: Some(legacy_id),
                blitz_node: Some(child),
                message: "mapped child Blitz node no longer exists"@,
            },
        ),
        Some(node) => if node.parent != Some(blitz_id) {
            Some(
                Fault {
                    operation,
                    legacy_node: Some(legacy_id),
                    blitz_node: Some(child),
                    message: "child parent mismatch: child parent="@ + option_text(node.parent)
                        + " expected="@ + decimal(blitz_id as nat),
                },
            )
        } else {
            None
        },
    }
}

/// What is wrong with the first broken one of the children of `blitz_id`.
pub open spec fn children_fault(
    operation: Seq<char>,
    t: RenderView,
    legacy_id: usize,
    blitz_id: usize,
    ids: Seq<usize>,
) -> Option<Fault>
    decreases ids.len(),
{
    if ids.len() == 0 {
        None
    } else {
        match children_fault(operation, t, legacy_id, blitz_id, ids.drop_last()) {
            Some(f) => Some(f),
            None => child_fault(operation, t, legacy_id, blitz_id, ids.last()),
        }
    }
}

/// What is wrong with the rendered node `blitz_id` of `n`.
pub open spec fn node_fault(
    operation: Seq<char>,
    d: DomView,
    to_blitz: Map<usize, usize>,
    t: RenderView,
    n: NodePtr,
    legacy_id: usize,
    blitz_id: usize,
    node: RenderNodeView,
) -> Option<Fault> {
    let ids = ids_of(rendered_children(d, n), to_blitz);
    match data_fault(d, to_blitz, n, node) {
        Some(message) => Some(
            Fault {
                operation,
                legacy_node: Some(legacy_id),
                blitz_node: Some(blitz_id),
                message,
            },
        ),
        None => if node.children != ids {
            Some(
                Fault {
                    operation,
                    legacy_node: Some(legacy_id),
                    blitz_node: Some(blitz_id),
                    message: "child mapping mismatch: blitz="@ + list_text(node.children)
                        + " expected="@ + list_text(ids),
                },
            )
        } else {
            children_fault(operation, t, legacy_id, blitz_id, ids)
        },
    }
}

/// Attributes by their written names.
pub fn blitz_attrs_to_map(element: &RenderElement) -> (res: Attributes)
    ensures
        res@ == attributes_by_name(element@.attrs),
{
    let mut res = Attributes::new();
    let mut i: usize = 0;
    proof {
        assert(element@.attrs.take(0).len() == 0);
    }
    while i < element.attrs.len()
        invariant
            i <= element.attrs.len(),
            res@ == attributes_by_name(element@.attrs.take(i as int)),
        decreases element.attrs.len() - i,
    {
        proof {
            let next = element@.attrs.take(i + 1);
            assert(next.drop_last() == element@.attrs.take(i as int));
            assert(next.last() == element.attrs@[i as int]@);
        }
        let _ = res.insert(
            attr_qual_name_to_string(&element.attrs[i].name),
            element.attrs[i].value.clone(),
        );
        i = i + 1;
    }
    assert(element@.attrs.take(i as int) == element@.attrs);
    res
}

fn find_unmatched(own: &Attributes, shown: &Attributes) -> (res: Option<String>)
    ensures
        match res {
            Some(name) => first_unmatched(in_order(own@), shown@) == Some(name@),
            None => first_unmatched(in_order(own@), shown@) is None,
        },
{
    let entries = own.entries();
    let ghost pairs = in_order(own@);
    let mut i: usize = 0;
    proof {
        assert(pairs.skip(0) == pairs);
    }
    while i < entries.len()
        invariant
            i <= entries.len(),
            pairs == in_order(own@),
            entries@.len() == pairs.len(),
            forall|j: int|
                0 <= j < pairs.len() ==> #[trigger] pairs[j] == (entries@[j].0@, entries@[j].1@),
            first_unmatched(pairs, shown@) == first_unmatched(pairs.skip(i as int), shown@),
        decreases entries.len() - i,
    {
        proof {
            assert(pairs.skip(i as int)[0] == pairs[i as int]);
            assert(pairs.skip(i as int).drop_first() == pairs.skip(i + 1));
        }
        let same = match shown.get(entries[i].0.as_str()) {
            Some(value) => text_eq(value.as_str(), entries[i].1.as_str()),
            None => false,
        };
        if !same {
            return Some(entries[i].0.clone());
        }
        i = i + 1;
    }
    None
}

fn find_unknown(shown: &Attributes, own: &Attributes) -> (res: Option<String>)
    ensures
        match res {
            Some(name) => first_unknown(in_order(shown@), own@) == Some(name@),
            None => first_unknown(in_order(shown@), own@) is None,
        },
{
    let entries = shown.entries();
    let ghost pairs = in_order(shown@);
    let mut i: usize = 0;
    proof {
        assert(pairs.skip(0) == pairs);
    }
    while i < entries.len()
        invariant
            i <= entries.len(),
            pairs == in_order(shown@),
            entries@.len() == pairs.len(),
            forall|j: int|
                0 <= j < pairs.len() ==> #[trigger] pairs[j] == (entries@[j].0@, entries@[j].1@),
            first_unknown(pairs, own@) == first_unknown(pairs.skip(i as int), own@),
        decreases entries.len() - i,
    {
        proof {
            assert(pairs.skip(i as int)[0] == pairs[i as int]);
            assert(pairs.skip(i as int).drop_first() == pairs.skip(i + 1));
        }
        if !own.contains_key(entries[i].0.as_str()) {
            return Some(entries[i].0.clone());
        }
        i = i + 1;
    }
    None
}

fn check_element(tag_name: &str, attributes: &Attributes, data: &RenderData, Ghost(el): Ghost<ElementView>) -> (res:
    Option<String>)
    requires
        el.tag_name == tag_name@,
        el.attributes == attributes@,
    ensures
        match res {
            Some(message) => element_fault(el, data@) == Some(message@),
            None => element_fault(el, data@) is None,
        },
{
    let shown = match data.downcast_element() {
        Some(shown) => shown,
        None => {
            return Some("legacy element maps to non-element Blitz node".to_owned());
        },
    };
    if !text_eq(shown.name.local.as_str(), tag_name) {
        let mut message = "tag mismatch: legacy=<".to_owned();
        message.push_str(tag_name);
        message.push_str("> blitz=<");
        message.push_str(shown.name.local.as_str());
        message.push_str(">");
        return Some(message);
    }
    let attrs = blitz_attrs_to_map(shown);
    if let Some(name) = find_unmatched(attributes, &attrs) {
        let mut message = "attribute mismatch for ".to_owned();
        push_debug(&mut message, name.as_str());
        return Some(message);
    }
    if let Some(name) = find_unknown(&attrs, attributes) {
        let mut message = "unexpected Blitz attribute ".to_owned();
        push_debug(&mut message, name.as_str());
        return Some(message);
    }
    None
}

fn attr_is(data: &RenderData, name: &str, value: &str) -> (res: bool)
    ensures
        res == (value_of(data@, name@) == Some(value@)),
{
    match data.attr(name) {
        Some(v) => text_eq(v.as_str(), value),
        None => false,
    }
}

fn check_shadow_root(
    dom: &Dom,
    legacy_to_blitz: &BTreeMap<usize, usize>,
    dom_node: NodePtr,
    blitz_node: &RenderNode,
) -> (res: Option<String>)
    requires
        dom.wf(),
        dom_node < dom@.len(),
    ensures
        match res {
            Some(message) => shadow_fault(dom@, legacy_to_blitz@, dom_node, blitz_node@) == Some(
                message@,
            ),
            None => shadow_fault(dom@, legacy_to_blitz@, dom_node, blitz_node@) is None,
        },
{
    let shown = match blitz_node.data.downcast_element() {
        Some(shown) => shown,
        None => {
            return Some("shadow root maps to non-element Blitz node".to_owned());
        },
    };
    if !text_eq(shown.name.local.as_str(), "div") {
        let mut message = "shadow root synthetic node is <".to_owned();
        message.push_str(shown.name.local.as_str());
        message.push_str(">, expected <div>");
        return Some(message);
    }
    if !attr_is(&blitz_node.data, "data-aurora-shadow-root", "true") {
        return Some(
            "shadow root synthetic node is missing data-aurora-shadow-root=true".to_owned(),
        );
    }
    let host: NodePtr = match parent_ptr(dom, dom_node) {
        Some(host) => host,
        None => {
            return Some("shadow root has no legacy host parent".to_owned());
        },
    };
    proof {
        assert(crate::dom::node::node_ok(dom@[dom_node as int], dom@.len()));
    }
    if let Some(host_id) = legacy_to_blitz.get(&host) {
        let expected: usize = *host_id;
        let found = match blitz_node.parent {
            Some(p) => p == expected,
            None => false,
        };
        if !found {
            let mut message = "shadow root parent mismatch: blitz=".to_owned();
            push_option(&mut message, blitz_node.parent);
            message.push_str(" expected=");
            push_decimal(&mut message, expected);
            return Some(message);
        }
    }
    if let Node::Element(host_el) = dom.node(host) {
        if !attr_is(&blitz_node.data, "data-aurora-shadow-host", host_el.tag_name.as_str()) {
            let mut message = "shadow host marker mismatch: expected ".to_owned();
            message.push_str(host_el.tag_name.as_str());
            return Some(message);
        }
    }
    None
}

fn check_data(
    dom: &Dom,
    legacy_to_blitz: &BTreeMap<usize, usize>,
    dom_node: NodePtr,
    blitz_node: &RenderNode,
) -> (res: Option<String>)
    requires
        dom.wf(),
        dom_node < dom@.len(),
    ensures
        match res {
            Some(message) => data_fault(dom@, legacy_to_blitz@, dom_node, blitz_node@) == Some(
                message@,
            ),
            None => data_fault(dom@, legacy_to_blitz@, dom_node, blitz_node@) is None,
        },
{
    match dom.node(dom_node) {
        Node::Document { .. } => {
            let fits = match &blitz_node.data {
                RenderData::Document => true,
                RenderData::Element(_) => true,
                RenderData::AnonymousBlock(_) => true,
                _ => false,
            };
            if fits {
                None
            } else {
                Some("legacy document maps to non-document/non-fragment Blitz node".to_owned())
            }
        },
        Node::Text(text) => match &blitz_node.data {
            RenderData::Text(shown) => if text_eq(shown.as_str(), text.content.as_str()) {
                None
            } else {
                let mut message = "text mismatch: legacy=".to_owned();
                push_debug(&mut message, text.content.as_str());
                message.push_str(" blitz=");
                push_debug(&mut message, shown.as_str());
                Some(message)
            },
            _ => Some("legacy text node maps to non-text Blitz node".to_owned()),
        },
        Node::Comment(_) => match &blitz_node.data {
            RenderData::Comment => None,
            _ => Some("legacy comment node maps to non-comment Blitz node".to_owned()),
        },
        Node::Element(el) => {
            if SyntheticShadowTreeBackend.is_shadow_root(dom, dom_node) {
                check_shadow_root(dom, legacy_to_blitz, dom_node, blitz_node)
            } else {
                check_element(el.tag_name.as_str(), &el.attributes, &blitz_node.data, Ghost(el@))
            }
        },
    }
}

/// The ids of the nodes that are rendered, in order.
pub fn mapped_ids(kids: &Vec<NodePtr>, legacy_to_blitz: &BTreeMap<usize, usize>) -> (res: Vec<
    usize,
>)
    ensures
        res@ == ids_of(kids@, legacy_to_blitz@),
{
    let mut res: Vec<usize> = Vec::new();
    let mut i: usize = 0;
    while i < kids.len()
        invariant
            i <= kids.len(),
            res@ == ids_of(kids@.take(i as int), legacy_to_blitz@),
        decreases kids.len() - i,
    {
        proof {
            let next = kids@.take(i + 1);
            assert(next.drop_last() == kids@.take(i as int));
            assert(next.last() == kids@[i as int]);
        }
        if let Some(id) = legacy_to_blitz.get(&kids[i]) {
            res.push(*id);
        }
        i = i + 1;
    }
    assert(kids@.take(i as int) == kids@);
    res
}

fn same_list(a: &Vec<usize>, b: &Vec<usize>) -> (res: bool)
    ensures
        res == (a@ == b@),
{
    if a.len() != b.len() {
        return false;
    }
    let mut i: usize = 0;
    while i < a.len()
        invariant
            i <= a.len(),
            a.len() == b.len(),
            forall|j: int| 0 <= j < i ==> a@[j] == b@[j],
        decreases a.len() - i,
    {
        if a[i] != b[i] {
            return false;
        }
        i = i + 1;
    }
    assert(a@ =~= b@);
    true
}

fn check_children(
    operation: &'static str,
    tree: &RenderTree,
    legacy_id: usize,
    blitz_id: usize,
    ids: &Vec<usize>,
) -> (res: Result<(), MirrorIntegrityError>)
    ensures
        reports(res, children_fault(operation@, tree@, legacy_id, blitz_id, ids@)),
{
    let mut i: usize = 0;
    while i < ids.len()
        invariant
            i <= ids.len(),
            children_fault(operation@, tree@, legacy_id, blitz_id, ids@.take(i as int)) is None,
        decreases ids.len() - i,
    {
        let child: usize = ids[i];
        proof {
            let next = ids@.take(i + 1);
            assert(next.drop_last() == ids@.take(i as int));
            assert(next.last() == child);
            lemma_children_fault(operation@, tree@, legacy_id, blitz_id, ids@, i + 1);
        }
        match tree.get_node(child) {
            None => {
                return Err(
                    MirrorIntegrityError::new(
                        operation,
                        Some(legacy_id),
                        Some(child),
                        "mapped child Blitz node no longer exists".to_owned(),
                    ),
                );
            },
            Some(node) => {
                let fits = match node.parent {
                    Some(p) => p == blitz_id,
                    None => false,
                };
                if !fits {
                    let mut message = "child parent mismatch: child parent=".to_owned();
                    push_option(&mut message, node.parent);
                    message.push_str(" expected=");
                    push_decimal(&mut message, blitz_id);
                    return Err(
                        MirrorIntegrityError::new(
                            operation,
                            Some(legacy_id),
                            Some(child),
                            message,
                        ),
                    );
                }
            },
        }
        i = i + 1;
    }
    assert(ids@.take(i as int) == ids@);
    Ok(())
}

/// The first broken child of a prefix is the first broken child.
proof fn lemma_children_fault(
    operation: Seq<char>,
    t: RenderView,
    legacy_id: usize,
    blitz_id: usize,
    ids: Seq<usize>,
    k: int,
)
    requires
        0 <= k <= ids.len(),
    ensures
        children_fault(operation, t, legacy_id, blitz_id, ids.take(k)) is Some ==> children_fault(
            operation,
            t,
            legacy_id,
            blitz_id,
            ids,
        ) == children_fault(operation, t, legacy_id, blitz_id, ids.take(k)),
    decreases ids.len(),
{
    if k == ids.len() {
        assert(ids.take(k) == ids);
    } else {
        lemma_children_fault(operation, t, legacy_id, blitz_id, ids.drop_last(), k);
        assert(ids.drop_last().take(k) == ids.take(k));
    }
}

/// Holds the rendered node `blitz_id` against its node in the document.
pub fn validate_mapped_node_state(
    dom: &mut Dom,
    tree: &RenderTree,
    legacy_to_blitz: &BTreeMap<usize, usize>,
    operation: &'static str,
    dom_node: NodePtr,
    legacy_id: usize,
    blitz_id: usize,
    blitz_node: &RenderNode,
) -> (res: Result<(), MirrorIntegrityError>)
    requires
        old(dom).wf(),
        dom_node < old(dom)@.len(),
        data_fault(old(dom)@, legacy_to_blitz@, dom_node, blitz_node@) is None ==> composable(
            old(dom)@,
            dom_node,
        ),
    ensures
        final(dom).wf(),
        final(dom)@ == (if data_fault(old(dom)@, legacy_to_blitz@, dom_node, blitz_node@) is None {
            distributed(old(dom)@, dom_node)
        } else {
            old(dom)@
        }),
        reports(
            res,
            node_fault(
                operation@,
                old(dom)@,
                legacy_to_blitz@,
                tree@,
                dom_node,
                legacy_id,
                blitz_id,
                blitz_node@,
            ),
        ),
{
    if let Some(message) = check_data(dom, legacy_to_blitz, dom_node, blitz_node) {
        return Err(
            MirrorIntegrityError::new(operation, Some(legacy_id), Some(blitz_id), message),
        );
    }
    let kids = child_nodes_for_blitz(dom, dom_node);
    let expected = mapped_ids(&kids, legacy_to_blitz);
    if !same_list(&blitz_node.children, &expected) {
        let mut message = "child mapping mismatch: blitz=".to_owned();
        push_list(&mut message, &blitz_node.children);
        message.push_str(" expected=");
        push_list(&mut message, &expected);
        return Err(
            MirrorIntegrityError::new(operation, Some(legacy_id), Some(blitz_id), message),
        );
    }
    check_children(operation, tree, legacy_id, blitz_id, &expected)
}

/// A state of the check: the first fault so far, and the document.
pub struct Sweep {
    pub fault: Option<Fault>,
    pub dom: DomView,
}

/// The check of the rendered node `n`.
pub open spec fn forward_step(operation: Seq<char>, m: Mirror, t: RenderView, n: NodePtr) -> Sweep {
    let id = m.to_blitz[n];
    if !m.to_legacy.contains_key(id) {
        Sweep {
            fault: Some(
                Fault {
                    operation,
                    legacy_node: Some(n),
                    blitz_node: Some(id),
                    message: "legacy_to_blitz entry has no reverse blitz_to_legacy entry"@,
                },
            ),
            dom: m.dom,
        }
    } else if m.to_legacy[id] != n {
        Sweep {
            fault: Some(
                Fault {
                    operation,
                    legacy_node: Some(n),
                    blitz_node: Some(id),
                    message: "reverse map points at different legacy node "@ + decimal(
                        m.to_legacy[id] as nat,
                    ),
                },
            ),
            dom: m.dom,
        }
    } else {
        match node_at(t, id) {
            None => Sweep {
                fault: Some(
                    Fault {
                        operation,
                        legacy_node: Some(n),
                        blitz_node: Some(id),
                        message: "mapped Blitz node no longer exists"@,
                    },
                ),
                dom: m.dom,
            },
            Some(node) => Sweep {
                fault: node_fault(operation, m.dom, m.to_blitz, t, n, n, id, node),
                dom: if data_fault(m.dom, m.to_blitz, n, node) is None {
                    distributed(m.dom, n)
                } else {
                    m.dom
                },
            },
        }
    }
}

/// The check of a list of rendered nodes, up to the first fault.
pub open spec fn forward(operation: Seq<char>, m: Mirror, t: RenderView, keys: Seq<usize>) -> Sweep
    decreases keys.len(),
{
    if keys.len() == 0 {
        Sweep { fault: None, dom: m.dom }
    } else {
        let before = forward(operation, m, t, keys.drop_last());
        if before.fault is Some {
            before
        } else {
            forward_step(operation, Mirror { dom: before.dom, ..m }, t, keys.last())
        }
    }
}

/// Whether the rendered children that the check of `n` reads can be computed.
pub open spec fn step_ready(m: Mirror, t: RenderView, n: NodePtr) -> bool {
    let id = m.to_blitz[n];
    m.to_legacy.contains_key(id) && m.to_legacy[id] == n && node_at(t, id) is Some ==> {
        &&& n < m.dom.len()
        &&& data_fault(m.dom, m.to_blitz, n, node_at(t, id)->0) is None ==> composable(m.dom, n)
    }
}

/// Whether the rendered children that the check of a list reads can be
/// computed.
pub open spec fn forward_ready(operation: Seq<char>, m: Mirror, t: RenderView, keys: Seq<usize>) -> bool
    decreases keys.len(),
{
    keys.len() == 0 || {
        let before = forward(operation, m, t, keys.drop_last());
        &&& forward_ready(operation, m, t, keys.drop_last())
        &&& before.fault is None ==> step_ready(
            Mirror { dom: before.dom, ..m },
            t,
            keys.last(),
        )
    }
}

/// The check of the reverse entry of `id`.
pub open spec fn backward_step(operation: Seq<char>, m: Mirror, t: RenderView, id: usize) -> Option<
    Fault,
> {
    let n = m.to_legacy[id];
    if !m.to_blitz.contains_key(n) {
        Some(
            Fault {
                operation,
                legacy_node: Some(n),
                blitz_node: Some(id),
                message: "blitz_to_legacy entry has no reverse legacy_to_blitz entry"@,
            },
        )
    } else if m.to_blitz[n] != id {
        Some(
            Fault {
                operation,
                legacy_node: Some(n),
                blitz_node: Some(id),
                message: "reverse map points at Blitz node "@ + decimal(m.to_blitz[n] as nat),
            },
        )
    } else if node_at(t, id) is None {
        Some(
            Fault {
                operation,
                legacy_node: Some(n),
                blitz_node: Some(id),
                message: "reverse-mapped Blitz node no longer exists"@,
            },
        )
    } else {
        None
    }
}

/// The check of a list of reverse entries, up to the first fault.
pub open spec fn backward(operation: Seq<char>, m: Mirror, t: RenderView, ids: Seq<usize>) -> Option<
    Fault,
>
    decreases ids.len(),
{
    if ids.len() == 0 {
        None
    } else {
        match backward(operation, m, t, ids.drop_last()) {
            Some(f) => Some(f),
            None => backward_step(operation, m, t, ids.last()),
        }
    }
}

/// What is wrong with a mirror: the first fault among the rendered nodes in
/// the order of their pointers, then among the reverse entries in the order of
/// their ids.
pub open spec fn integrity_fault(operation: Seq<char>, m: Mirror, t: RenderView) -> Option<Fault> {
    match forward(operation, m, t, in_increasing_order(m.to_blitz.dom())).fault {
        Some(f) => Some(f),
        None => backward(operation, m, t, in_increasing_order(m.to_legacy.dom())),
    }
}

fn check_entry(
    dom: &mut Dom,
    tree: &RenderTree,
    legacy_to_blitz: &BTreeMap<usize, usize>,
    blitz_to_legacy: &BTreeMap<usize, NodePtr>,
    operation: &'static str,
    legacy_id: usize,
) -> (res: Result<(), MirrorIntegrityError>)
    requires
        old(dom).wf(),
        legacy_to_blitz@.contains_key(legacy_id),
        step_ready(
            (Mirror {
                dom: old(dom)@,
                to_blitz: legacy_to_blitz@,
                to_legacy: blitz_to_legacy@,
            }),
            tree@,
            legacy_id,
        ),
    ensures
        final(dom).wf(),
        reports(
            res,
            forward_step(
                operation@,
                (Mirror {
                    dom: old(dom)@,
                    to_blitz: legacy_to_blitz@,
                    to_legacy: blitz_to_legacy@,
                }),
                tree@,
                legacy_id,
            ).fault,
        ),
        final(dom)@ == forward_step(
            operation@,
            (Mirror { dom: old(dom)@, to_blitz: legacy_to_blitz@, to_legacy: blitz_to_legacy@ }),
            tree@,
            legacy_id,
        ).dom,
{
    let blitz_id: usize = match legacy_to_blitz.get(&legacy_id) {
        Some(id) => *id,
        None => {
            return Ok(());
        },
    };
    let dom_node: NodePtr = match blitz_to_legacy.get(&blitz_id) {
        Some(n) => *n,
        None => {
            return Err(
                MirrorIntegrityError::new(
                    operation,
                    Some(legacy_id),
                    Some(blitz_id),
                    "legacy_to_blitz entry has no reverse blitz_to_legacy entry".to_owned(),
                ),
            );
        },
    };
    if dom_node != legacy_id {
        let mut message = "reverse map points at different legacy node ".to_owned();
        push_decimal(&mut message, dom_node);
        return Err(
            MirrorIntegrityError::new(operation, Some(legacy_id), Some(blitz_id), message),
        );
    }
    match tree.get_node(blitz_id) {
        None => Err(
            MirrorIntegrityError::new(
                operation,
                Some(legacy_id),
                Some(blitz_id),
                "mapped Blitz node no longer exists".to_owned(),
            ),
        ),
        Some(blitz_node) => validate_mapped_node_state(
            dom,
            tree,
            legacy_to_blitz,
            operation,
            dom_node,
            legacy_id,
            blitz_id,
            blitz_node,
        ),
    }
}

fn check_reverse_entry(
    tree: &RenderTree,
    legacy_to_blitz: &BTreeMap<usize, usize>,
    blitz_to_legacy: &BTreeMap<usize, NodePtr>,
    operation: &'static str,
    blitz_id: usize,
    Ghost(d): Ghost<DomView>,
) -> (res: Result<(), MirrorIntegrityError>)
    requires
        blitz_to_legacy@.contains_key(blitz_id),
    ensures
        reports(
            res,
            backward_step(
                operation@,
                (Mirror { dom: d, to_blitz: legacy_to_blitz@, to_legacy: blitz_to_legacy@ }),
                tree@,
                blitz_id,
            ),
        ),
{
    let legacy_id: NodePtr = match blitz_to_legacy.get(&blitz_id) {
        Some(n) => *n,
        None => {
            return Ok(());
        },
    };
    match legacy_to_blitz.get(&legacy_id) {
        Some(mapped) => {
            if *mapped != blitz_id {
                let mut message = "reverse map points at Blitz node ".to_owned();
                push_decimal(&mut message, *mapped);
                return Err(
                    MirrorIntegrityError::new(
                        operation,
                        Some(legacy_id),
                        Some(blitz_id),
                        message,
                    ),
                );
            }
        },
        None => {
            return Err(
                MirrorIntegrityError::new(
                    operation,
                    Some(legacy_id),
                    Some(blitz_id),
                    "blitz_to_legacy entry has no reverse legacy_to_blitz entry".to_owned(),
                ),
            );
        },
    }
    if tree.get_node(blitz_id).is_none() {
        return Err(
            MirrorIntegrityError::new(
                operation,
                Some(legacy_id),
                Some(blitz_id),
                "reverse-mapped Blitz node no longer exists".to_owned(),
            ),
        );
    }
    Ok(())
}

proof fn lemma_forward_prefix(operation: Seq<char>, m: Mirror, t: RenderView, keys: Seq<usize>, k: int)
    requires
        0 <= k <= keys.len(),
        forward_ready(operation, m, t, keys),
    ensures
        forward_ready(operation, m, t, keys.take(k)),
        forward(operation, m, t, keys.take(k)).fault is Some ==> forward(operation, m, t, keys)
            == forward(operation, m, t, keys.take(k)),
    decreases keys.len(),
{
    if k == keys.len() {
        assert(keys.take(k) == keys);
    } else {
        lemma_forward_prefix(operation, m, t, keys.drop_last(), k);
        assert(keys.drop_last().take(k) == keys.take(k));
    }
}

proof fn lemma_backward_prefix(operation: Seq<char>, m: Mirror, t: RenderView, ids: Seq<usize>, k: int)
    requires
        0 <= k <= ids.len(),
    ensures
        backward(operation, m, t, ids.take(k)) is Some ==> backward(operation, m, t, ids)
            == backward(operation, m, t, ids.take(k)),
    decreases ids.len(),
{
    if k == ids.len() {
        assert(ids.take(k) == ids);
    } else {
        lemma_backward_prefix(operation, m, t, ids.drop_last(), k);
        assert(ids.drop_last().take(k) == ids.take(k));
    }
}

/// Checks the whole mirror.
pub fn validate_mirror_integrity_for(
    dom: &mut Dom,
    tree: &RenderTree,
    legacy_to_blitz: &BTreeMap<usize, usize>,
    blitz_to_legacy: &BTreeMap<usize, NodePtr>,
    operation: &'static str,
) -> (res: Result<(), MirrorIntegrityError>)
    requires
        old(dom).wf(),
        forward_ready(
            operation@,
            (Mirror {
                dom: old(dom)@,
                to_blitz: legacy_to_blitz@,
                to_legacy: blitz_to_legacy@,
            }),
            tree@,
            in_increasing_order(legacy_to_blitz@.dom()),
        ),
    ensures
        final(dom).wf(),
        reports(
            res,
            integrity_fault(
                operation@,
                (Mirror {
                    dom: old(dom)@,
                    to_blitz: legacy_to_blitz@,
                    to_legacy: blitz_to_legacy@,
                }),
                tree@,
            ),
        ),
        final(dom)@ == forward(
            operation@,
            (Mirror { dom: old(dom)@, to_blitz: legacy_to_blitz@, to_legacy: blitz_to_legacy@ }),
            tree@,
            in_increasing_order(legacy_to_blitz@.dom()),
        ).dom,
{
    let ghost m = Mirror {
        dom: dom@,
        to_blitz: legacy_to_blitz@,
        to_legacy: blitz_to_legacy@,
    };
    let keys = sorted_keys(legacy_to_blitz);
    let mut i: usize = 0;
    while i < keys.len()
        invariant
            i <= keys.len(),
            dom.wf(),
            lists(keys@, legacy_to_blitz@.dom()),
            m == (Mirror {
                dom: m.dom,
                to_blitz: legacy_to_blitz@,
                to_legacy: blitz_to_legacy@,
            }),
            keys@ == in_increasing_order(legacy_to_blitz@.dom()),
            m.dom == old(dom)@,
            forward_ready(operation@, m, tree@, keys@),
            forward(operation@, m, tree@, keys@.take(i as int)).fault is None,
            forward(operation@, m, tree@, keys@.take(i as int)).dom == dom@,
        decreases keys.len() - i,
    {
        proof {
            let next = keys@.take(i + 1);
            assert(next.drop_last() == keys@.take(i as int));
            assert(next.last() == keys@[i as int]);
            lemma_forward_prefix(operation@, m, tree@, keys@, i + 1);
            assert(keys@.to_set().contains(keys@[i as int]));
        }
        match check_entry(dom, tree, legacy_to_blitz, blitz_to_legacy, operation, keys[i]) {
            Ok(_) => {},
            Err(e) => {
                return Err(e);
            },
        }
        i = i + 1;
    }
    assert(keys@.take(i as int) == keys@);
    let ids = sorted_keys(blitz_to_legacy);
    let mut k: usize = 0;
    while k < ids.len()
        invariant
            k <= ids.len(),
            dom.wf(),
            lists(ids@, blitz_to_legacy@.dom()),
            ids@ == in_increasing_order(blitz_to_legacy@.dom()),
            keys@ == in_increasing_order(legacy_to_blitz@.dom()),
            m == (Mirror {
                dom: m.dom,
                to_blitz: legacy_to_blitz@,
                to_legacy: blitz_to_legacy@,
            }),
            m.dom == old(dom)@,
            forward(operation@, m, tree@, keys@).fault is None,
            forward(operation@, m, tree@, keys@).dom == dom@,
            backward(operation@, m, tree@, ids@.take(k as int)) is None,
        decreases ids.len() - k,
    {
        proof {
            let next = ids@.take(k + 1);
            assert(next.drop_last() == ids@.take(k as int));
            assert(next.last() == ids@[k as int]);
            lemma_backward_prefix(operation@, m, tree@, ids@, k + 1);
            assert(ids@.to_set().contains(ids@[k as int]));
        }
        match check_reverse_entry(
            tree,
            legacy_to_blitz,
            blitz_to_legacy,
            operation,
            ids[k],
            Ghost(m.dom),
        ) {
            Ok(_) => {},
            Err(e) => {
                return Err(e);
            },
        }
        k = k + 1;
    }
    assert(ids@.take(k as int) == ids@);
    Ok(())
}

proof fn lemma_forward_covers(operation: Seq<char>, m: Mirror, t: RenderView, keys: Seq<usize>, i: int)
    requires
        forward(operation, m, t, keys).fault is None,
        0 <= i < keys.len(),
    ensures
        m.to_legacy.contains_key(m.to_blitz[keys[i]]),
        m.to_legacy[m.to_blitz[keys[i]]] == keys[i],
        node_at(t, m.to_blitz[keys[i]]) is Some,
    decreases keys.len(),
{
    if i < keys.len() - 1 {
        lemma_forward_covers(operation, m, t, keys.drop_last(), i);
    }
}

proof fn lemma_backward_covers(operation: Seq<char>, m: Mirror, t: RenderView, ids: Seq<usize>, i: int)
    requires
        backward(operation, m, t, ids) is None,
        0 <= i < ids.len(),
    ensures
        m.to_blitz.contains_key(m.to_legacy[ids[i]]),
        m.to_blitz[m.to_legacy[ids[i]]] == ids[i],
        node_at(t, ids[i]) is Some,
    decreases ids.len(),
{
    if i < ids.len() - 1 {
        lemma_backward_covers(operation, m, t, ids.drop_last(), i);
    }
}

/// A mirror without fault has paired maps, and every id in them names a node
/// of the renderer.
pub proof fn law_intact_mirror_is_paired(operation: Seq<char>, m: Mirror, t: RenderView)
    requires
        m.to_blitz.dom().finite(),
        m.to_legacy.dom().finite(),
        integrity_fault(operation, m, t) is None,
    ensures
        paired(m),
        forall|id: usize| #[trigger] m.to_legacy.contains_key(id) ==> node_at(t, id) is Some,
{
    let keys = in_increasing_order(m.to_blitz.dom());
    let ids = in_increasing_order(m.to_legacy.dom());
    lemma_listing_exists(m.to_blitz.dom());
    lemma_listing_exists(m.to_legacy.dom());
    assert forall|n: usize| #[trigger] m.to_blitz.contains_key(n) implies m.to_legacy.contains_key(
        m.to_blitz[n],
    ) && m.to_legacy[m.to_blitz[n]] == n by {
        assert(keys.to_set().contains(n));
        let i = choose|i: int| 0 <= i < keys.len() && keys[i] == n;
        lemma_forward_covers(operation, m, t, keys, i);
    }
    assert forall|id: usize| #[trigger] m.to_legacy.contains_key(id) implies m.to_blitz.contains_key(
        m.to_legacy[id],
    ) && m.to_blitz[m.to_legacy[id]] == id && node_at(t, id) is Some by {
        assert(ids.to_set().contains(id));
        let i = choose|i: int| 0 <= i < ids.len() && ids[i] == id;
        lemma_backward_covers(operation, m, t, ids, i);
    }
}

} // verus!
