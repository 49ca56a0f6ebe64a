//! What scripts read of a node.

use crate::dom::attributes::{in_order, Pair};
use crate::dom::node::{assigned_of, child_nodes, children_of, copy_list, discard, finite_from,
    fresh_element, is_element_node, links_ok, node_ok, orphaned, parent_of, parent_ptr,
    set_template_contents, template_contents, with_template, Dom, DomView, Node, NodePtr, NodeView,
    Reach};
use crate::dom::shadow::{climb_ends, composed, distributed, is_root_at, nearest_root, slots_end,
    ShadowTreeBackend, SyntheticShadowTreeBackend};
use crate::js::mutation::{index_in, position_of};
use crate::css::ast::ElementData;
use crate::js::query::{answers, descendants, find_parent, first_match, found_parent, in_place,
    lookups_end, parent_is_current, preorder, selector_matches, tag_matches};
use crate::text::{eq_ignore_ascii_case, has_prefix, join, joined, same_ignoring_case,
    split_whitespace, strip_prefix, text_eq, words};
use vstd::prelude::*;

verus! {

/// The capital form of a text.
pub uninterp spec fn upper_form(s: Seq<char>) -> Seq<char>;

/// The small form of a text.
pub uninterp spec fn lower_form(s: Seq<char>) -> Seq<char>;

/// The capital form of a character.
pub uninterp spec fn upper_char(c: char) -> Seq<char>;

/// `str::to_uppercase`, which follows the Unicode tables and no locale.
#[verifier::external_body]
pub(crate) fn to_uppercase(s: &str) -> (res: String)
    ensures
        res@ == upper_form(s@),
{
    s.to_uppercase()
}

/// `str::to_lowercase`, which follows the Unicode tables and no locale.
#[verifier::external_body]
pub(crate) fn to_lowercase(s: &str) -> (res: String)
    ensures
        res@ == lower_form(s@),
{
    s.to_lowercase()
}

/// `char::to_uppercase` as a string. Some characters have a capital form of
/// several characters.
#[verifier::external_body]
fn char_to_uppercase(c: char) -> (res: String)
    ensures
        res@ == upper_char(c),
{
    c.to_uppercase().to_string()
}

/// The `nodeType` of a node.
pub open spec fn type_of(n: NodeView) -> i32 {
    match n {
        NodeView::Element(el) => if el.tag_name == "#document-fragment"@ {
            11
        } else {
            1
        },
        NodeView::Text { content, parent } => 3,
        NodeView::Comment { content, parent } => 8,
        NodeView::Document { children, mode } => 9,
    }
}

/// The `nodeType` of `node`.
pub fn node_type(dom: &Dom, node: NodePtr) -> (res: i32)
    requires
        node < dom@.len(),
    ensures
        res == type_of(dom@[node as int]),
{
    match dom.node(node) {
        Node::Element(el) => if text_eq(el.tag_name.as_str(), "#document-fragment") {
            11
        } else {
            1
        },
        Node::Text(_) => 3,
        Node::Comment(_) => 8,
        Node::Document { .. } => 9,
    }
}

/// The `nodeName` of a node.
pub open spec fn name_of(n: NodeView) -> Seq<char> {
    match n {
        NodeView::Element(el) => if el.tag_name == "#document-fragment"@ {
            "#document-fragment"@
        } else {
            upper_form(el.tag_name)
        },
        NodeView::Text { content, parent } => "#text"@,
        NodeView::Comment { content, parent } => "#comment"@,
        NodeView::Document { children, mode } => "#document"@,
    }
}

/// The `nodeName` of `node`.
pub fn node_name(dom: &Dom, node: NodePtr) -> (res: String)
    requires
        node < dom@.len(),
    ensures
        res@ == name_of(dom@[node as int]),
{
    match dom.node(node) {
        Node::Element(el) => if text_eq(el.tag_name.as_str(), "#document-fragment") {
            "#document-fragment".to_string()
        } else {
            to_uppercase(el.tag_name.as_str())
        },
        Node::Text(_) => "#text".to_string(),
        Node::Comment(_) => "#comment".to_string(),
        Node::Document { .. } => "#document".to_string(),
    }
}

/// Letters after a run of hyphens in capitals, the hyphens dropped. The flag
/// says whether a hyphen came last.
pub open spec fn camel(s: Seq<char>) -> (Seq<char>, bool)
    decreases s.len(),
{
    if s.len() == 0 {
        (Seq::empty(), false)
    } else {
        let (front, up) = camel(s.drop_last());
        if s.last() == '-' {
            (front, true)
        } else if up {
            (front + upper_char(s.last()), false)
        } else {
            (front.push(s.last()), false)
        }
    }
}

/// The `dataset` key of an attribute, if it has one.
pub open spec fn dataset_key(name: Seq<char>) -> Option<Seq<char>> {
    if has_prefix(name, "data-"@) && name.len() > 5 {
        Some(camel(name.skip(5)).0)
    } else {
        None
    }
}

/// The `dataset` key of the attribute `name`.
pub fn data_attr_to_dataset_key(name: &str) -> (res: Option<String>)
    ensures
        match res {
            Some(key) => dataset_key(name@) == Some(key@),
            None => dataset_key(name@) is None,
        },
{
    proof {
        reveal_strlit("data-");
    }
    let raw = match strip_prefix(name, "data-") {
        Some(raw) => raw,
        None => {
            return None;
        },
    };
    let chars = crate::text::chars_of(raw.as_str());
    if chars.len() == 0 {
        return None;
    }
    let mut key = String::new();
    let mut uppercase_next = false;
    let mut i: usize = 0;
    assert(key@ =~= camel(chars@.take(0)).0);
    while i < chars.len()
        invariant
            i <= chars.len(),
            (key@, uppercase_next) == camel(chars@.take(i as int)),
        decreases chars.len() - i,
    {
        proof {
            assert(chars@.take(i + 1).drop_last() =~= chars@.take(i as int));
            assert(chars@.take(i + 1).last() == chars@[i as int]);
        }
        let ch = chars[i];
        if ch == '-' {
            uppercase_next = true;
        } else if uppercase_next {
            let capital = char_to_uppercase(ch);
            key.push_str(capital.as_str());
            uppercase_next = false;
        } else {
            key.push(ch);
        }
        i = i + 1;
    }
    assert(chars@.take(i as int) =~= chars@);
    Some(key)
}

/// The elements among `kids`; fragments are no elements here.
pub open spec fn elements_among(d: DomView, kids: Seq<NodePtr>) -> Seq<NodePtr> {
    kids.filter(|k: NodePtr| type_of(d[k as int]) == 1)
}

/// The children of `node` that are elements.
pub fn element_children(dom: &Dom, node: NodePtr) -> (res: Vec<NodePtr>)
    requires
        dom.wf(),
        node < dom@.len(),
    ensures
        res@ == elements_among(dom@, children_of(dom@[node as int])),
{
    let kids = child_nodes(dom, node);
    let mut res: Vec<NodePtr> = Vec::new();
    let mut i: usize = 0;
    proof {
        reveal(Seq::filter);
        assert(node_ok(dom@[node as int], dom@.len()));
        assert(links_ok(kids@, dom@.len()));
        assert(elements_among(dom@, kids@.take(0)) =~= Seq::<NodePtr>::empty());
    }
    while i < kids.len()
        invariant
            i <= kids.len(),
            links_ok(kids@, dom@.len()),
            res@ == elements_among(dom@, kids@.take(i as int)),
        decreases kids.len() - i,
    {
        proof {
            reveal(Seq::filter);
            assert(kids@.take(i + 1).drop_last() =~= kids@.take(i as int));
            assert(kids@.take(i + 1).last() == kids@[i as int]);
        }
        if node_type(dom, kids[i]) == 1 {
            res.push(kids[i]);
        }
        i = i + 1;
    }
    assert(kids@.take(i as int) =~= kids@);
    res
}

/// The first child of `node` that is an element.
pub fn first_element_child(dom: &Dom, node: NodePtr) -> (res: Option<NodePtr>)
    requires
        dom.wf(),
        node < dom@.len(),
    ensures
        res == ({
            let elements = elements_among(dom@, children_of(dom@[node as int]));
            if elements.len() > 0 {
                Some(elements[0])
            } else {
                None
            }
        }),
{
    let elements = element_children(dom, node);
    if elements.len() > 0 {
        Some(elements[0])
    } else {
        None
    }
}

/// The last child of `node` that is an element.
pub fn last_element_child(dom: &Dom, node: NodePtr) -> (res: Option<NodePtr>)
    requires
        dom.wf(),
        node < dom@.len(),
    ensures
        res == ({
            let elements = elements_among(dom@, children_of(dom@[node as int]));
            if elements.len() > 0 {
                Some(elements.last())
            } else {
                None
            }
        }),
{
    let elements = element_children(dom, node);
    if elements.len() > 0 {
        Some(elements[elements.len() - 1])
    } else {
        None
    }
}

/// How many children of `node` are elements.
pub fn child_element_count(dom: &Dom, node: NodePtr) -> (res: usize)
    requires
        dom.wf(),
        node < dom@.len(),
    ensures
        res == elements_among(dom@, children_of(dom@[node as int])).len(),
{
    element_children(dom, node).len()
}

/// The parent of a node as scripts see it, and the arena with a stale parent
/// pointer repaired. A shadow root has none, whatever its pointer says; a node
/// that its parent no longer owns, and that is not below it either, has none.
pub open spec fn script_parent(d: DomView, n: NodePtr) -> (DomView, Option<NodePtr>) {
    if is_root_at(d, n) {
        (d, None)
    } else {
        match parent_of(d[n as int]) {
            Some(p) => {
                let (e, found) = found_parent(d, p, n);
                (
                    e,
                    if found is Some {
                        Some(p)
                    } else {
                        None
                    },
                )
            },
            None => (d, None),
        }
    }
}

/// Whether the look-up of `n`'s parent ends.
pub open spec fn parent_lookup_ends(d: DomView, n: NodePtr) -> bool {
    !is_root_at(d, n) && !parent_is_current(d, n) ==> finite_from(
        d,
        parent_of(d[n as int])->0,
        Reach::Inert,
    )
}

/// The parent of `node` as scripts see it. A stale parent pointer is repaired
/// on the way.
pub fn find_parent_for(dom: &mut Dom, node: NodePtr) -> (res: Option<NodePtr>)
    requires
        old(dom).wf(),
        node < old(dom)@.len(),
        parent_lookup_ends(old(dom)@, node),
    ensures
        final(dom).wf(),
        (final(dom)@, res) == script_parent(old(dom)@, node),
        res matches Some(p) ==> p < final(dom)@.len(),
        final(dom)@.len() == old(dom)@.len(),
{
    let backend = SyntheticShadowTreeBackend;
    if backend.is_shadow_root(dom, node) {
        return None;
    }
    proof {
        assert(node_ok(dom@[node as int], dom@.len()));
    }
    match parent_ptr(dom, node) {
        Some(parent) => match find_parent(dom, parent, node) {
            Some(_) => Some(parent),
            None => None,
        },
        None => None,
    }
}

/// The sibling that is `remaining` steps from the child at `at`.
pub open spec fn sibling_at(
    d: DomView,
    kids: Seq<NodePtr>,
    at: int,
    forward: bool,
    remaining: nat,
    elements_only: bool,
) -> Option<NodePtr>
    decreases
            if forward {
                kids.len() - at
            } else {
                at + 1
            },
{
    let next = if forward {
        at + 1
    } else {
        at - 1
    };
    if remaining == 0 || !(0 <= at < kids.len()) || !(0 <= next < kids.len()) {
        None
    } else if elements_only && type_of(d[kids[next] as int]) != 1 {
        sibling_at(d, kids, next, forward, remaining, elements_only)
    } else if remaining == 1 {
        Some(kids[next])
    } else {
        sibling_at(d, kids, next, forward, (remaining - 1) as nat, elements_only)
    }
}

/// The sibling of `n` that is `delta` steps away: behind it for a positive
/// `delta`, before it for a negative one.
pub open spec fn sibling(d: DomView, n: NodePtr, delta: i32, elements_only: bool) -> Option<NodePtr> {
    match parent_of(d[n as int]) {
        None => None,
        Some(p) => {
            let kids = children_of(d[p as int]);
            sibling_at(
                d,
                kids,
                index_in(kids, n) as int,
                delta > 0,
                if delta > 0 {
                    delta as nat
                } else {
                    (-delta) as nat
                },
                elements_only,
            )
        },
    }
}

/// The sibling of `node` that is `delta` steps away.
pub fn sibling_for_node(dom: &Dom, node: NodePtr, delta: i32, elements_only: bool) -> (res: Option<
    NodePtr,
>)
    requires
        dom.wf(),
        node < dom@.len(),
        delta > i32::MIN,
    ensures
        res == sibling(dom@, node, delta, elements_only),
{
    proof {
        assert(node_ok(dom@[node as int], dom@.len()));
    }
    let parent = match parent_ptr(dom, node) {
        Some(p) => p,
        None => {
            return None;
        },
    };
    let kids = child_nodes(dom, parent);
    proof {
        assert(node_ok(dom@[parent as int], dom@.len()));
        assert(links_ok(kids@, dom@.len()));
    }
    let mut at: usize = position_of(&kids, node);
    if at >= kids.len() {
        return None;
    }
    let forward = delta > 0;
    let mut remaining: i32 = if forward {
        delta
    } else {
        -delta
    };
    let ghost answer = sibling(dom@, node, delta, elements_only);
    while remaining > 0
        invariant
            at < kids.len(),
            remaining >= 0,
            links_ok(kids@, dom@.len()),
            answer == sibling(dom@, node, delta, elements_only),
            answer == sibling_at(dom@, kids@, at as int, forward, remaining as nat, elements_only),
        decreases
                if forward {
                    kids.len() - at
                } else {
                    at + 1
                },
    {
        if forward {
            if at + 1 >= kids.len() {
                return None;
            }
            at = at + 1;
        } else {
            if at == 0 {
                return None;
            }
            at = at - 1;
        }
        let candidate = kids[at];
        if !elements_only || node_type(dom, candidate) == 1 {
            remaining = remaining - 1;
            if remaining == 0 {
                return Some(candidate);
            }
        }
    }
    None
}

/// The arena after the slots of the shadow tree around `slot` were filled, and
/// the nodes assigned to `slot`. Flattened, a slot that got nothing shows its
/// fallback content, and nested slots what they show.
pub open spec fn slotted(d: DomView, slot: NodePtr, flatten: bool) -> (DomView, Seq<NodePtr>) {
    let e = match nearest_root(d, slot, d.len()) {
        Some(root) => match parent_of(d[root as int]) {
            Some(host) => distributed(d, host),
            None => d,
        },
        None => d,
    };
    (
        e,
        if flatten {
            composed(e, slot, e.len())
        } else {
            assigned_of(e[slot as int])
        },
    )
}

/// Whether filling the slots around `slot` and reading it ends.
pub open spec fn slotting_ends(d: DomView, slot: NodePtr) -> bool {
    &&& climb_ends(d, slot, d.len())
    &&& nearest_root(d, slot, d.len()) matches Some(root) ==> finite_from(
        d,
        root,
        Reach::ElementChildren,
    )
    &&& slots_end(slotted(d, slot, false).0, slot, slotted(d, slot, false).0.len())
}

/// The nodes assigned to a slot, after the slots of its shadow tree were filled.
pub fn slot_assigned_nodes(dom: &mut Dom, slot: NodePtr, flatten: bool) -> (res: Vec<NodePtr>)
    requires
        old(dom).wf(),
        slot < old(dom)@.len(),
        slotting_ends(old(dom)@, slot),
    ensures
        final(dom).wf(),
        (final(dom)@, res@) == slotted(old(dom)@, slot, flatten),
{
    let backend = SyntheticShadowTreeBackend;
    let ghost d = dom@;
    if let Some(root) = backend.nearest_shadow_root(dom, slot) {
        proof {
            lemma_nearest_root(d, slot, d.len());
            assert(node_ok(d[root as int], d.len()));
        }
        if let Some(host) = backend.host_for_shadow_root(dom, root) {
            backend.distribute_slots(dom, host);
        }
    }
    if flatten {
        backend.composed_children(dom, slot)
    } else {
        backend.assigned_nodes(dom, slot)
    }
}

proof fn lemma_nearest_root(d: DomView, n: NodePtr, fuel: nat)
    requires
        climb_ends(d, n, fuel),
    ensures
        nearest_root(d, n, fuel) matches Some(root) ==> is_root_at(d, root) && root < d.len(),
    decreases fuel,
{
    if !is_root_at(d, n) {
        if let Some(p) = parent_of(d[n as int]) {
            if fuel > 0 {
                lemma_nearest_root(d, p, (fuel - 1) as nat);
            }
        }
    }
}

/// The arena after a template without contents got an empty fragment, and the
/// node whose children `innerHTML` speaks of.
pub open spec fn html_target(d: DomView, n: NodePtr) -> (DomView, NodePtr) {
    match d[n as int] {
        NodeView::Element(el) => if same_ignoring_case(el.tag_name, "template"@) {
            match el.template_contents {
                Some(content) => (d, content),
                None => (
                    d.push(
                        fresh_element("#document-fragment"@, Map::empty(), Seq::empty()),
                    ).update(n as int, with_template(d[n as int], Some(d.len() as NodePtr))),
                    d.len() as NodePtr,
                ),
            }
        } else {
            (d, n)
        },
        _ => (d, n),
    }
}

/// The node whose children `innerHTML` of `node` reads and writes: the contents
/// of a template, the node itself otherwise.
pub fn inner_html_target(dom: &mut Dom, node: NodePtr) -> (res: NodePtr)
    requires
        old(dom).wf(),
        node < old(dom)@.len(),
    ensures
        final(dom).wf(),
        (final(dom)@, res) == html_target(old(dom)@, node),
        res < final(dom)@.len(),
{
    let ghost d = dom@;
    let is_template = match dom.node(node) {
        Node::Element(el) => eq_ignore_ascii_case(el.tag_name.as_str(), "template"),
        _ => false,
    };
    if !is_template {
        return node;
    }
    match template_contents(dom, node) {
        Some(content) => {
            proof {
                assert(node_ok(dom@[node as int], dom@.len()));
            }
            content
        },
        None => {
            let content = Node::document_fragment(dom, Vec::new());
            set_template_contents(dom, node, Some(content));
            assert(dom@ =~= html_target(d, node).0);
            content
        },
    }
}

/// The first element with that tag name in the subtree at `n`.
pub open spec fn first_tagged(d: DomView, n: NodePtr, tag: Seq<char>) -> Option<NodePtr> {
    first_match(preorder(d, n, d.len()), |k: NodePtr| tag_matches(d[k as int], tag))
}

/// The first element with the tag name `tag` in the subtree at `node`.
pub fn first_by_tag(dom: &Dom, node: NodePtr, tag: &str) -> (res: Option<NodePtr>)
    requires
        dom.wf(),
        finite_from(dom@, node, Reach::Children),
    ensures
        res == first_tagged(dom@, node, tag@),
        res matches Some(n) ==> n < dom@.len(),
{
    let all = descendants(dom, node);
    let ghost tagged = |k: NodePtr| tag_matches(dom@[k as int], tag@);
    let any = text_eq(tag, "*");
    let mut i: usize = 0;
    assert(all@.skip(0) == all@);
    while i < all.len()
        invariant
            i <= all.len(),
            any == (tag@ == "*"@),
            tagged == (|k: NodePtr| tag_matches(dom@[k as int], tag@)),
            all@ == preorder(dom@, node, dom@.len()),
            forall|j: int| 0 <= j < all@.len() ==> #[trigger] all@[j] < dom@.len(),
            first_match(all@.skip(i as int), tagged) == first_match(all@, tagged),
        decreases all.len() - i,
    {
        let found = match dom.node(all[i]) {
            Node::Element(el) => any || eq_ignore_ascii_case(el.tag_name.as_str(), tag),
            _ => false,
        };
        assert(found == tagged(all@.skip(i as int)[0]));
        if found {
            return Some(all[i]);
        }
        assert(all@.skip(i as int).drop_first() == all@.skip(i + 1));
        i = i + 1;
    }
    None
}

/// The nodes that a parsed piece of markup stands for: the children of its body,
/// or of the document if it has none. The document and its body are given up, so
/// the nodes that stay have no parent.
pub fn parsed_html_nodes(dom: &mut Dom, parsed: NodePtr) -> (res: Vec<NodePtr>)
    requires
        old(dom).wf(),
        finite_from(old(dom)@, parsed, Reach::Children),
        parsed < old(dom)@.len(),
    ensures
        final(dom).wf(),
        match first_tagged(old(dom)@, parsed, "body"@) {
            Some(body) => {
                &&& res@ == children_of(old(dom)@[body as int])
                &&& final(dom)@ == orphaned(orphaned(old(dom)@, body), parsed)
            },
            None => {
                &&& res@ == (match old(dom)@[parsed as int] {
                    NodeView::Document { children, mode } => children,
                    _ => Seq::empty(),
                })
                &&& final(dom)@ == orphaned(old(dom)@, parsed)
            },
        },
{
    let nodes = match first_by_tag(dom, parsed, "body") {
        Some(body) => {
            let nodes = child_nodes(dom, body);
            discard(dom, body);
            nodes
        },
        None => match dom.node(parsed) {
            Node::Document { children, .. } => copy_list(children),
            _ => Vec::new(),
        },
    };
    discard(dom, parsed);
    nodes
}

/// The selector for elements that have all the classes in `class`.
pub fn class_selector(class: &str) -> (res: String)
    ensures
        res@ == "."@ + joined(words(class@), "."@),
{
    let names = split_whitespace(class);
    let list = join(&names, ".");
    let mut out = String::new();
    out.push_str(".");
    out.push_str(list.as_str());
    assert(out@ =~= "."@ + list@);
    out
}

/// The attributes of a node in their order; only elements have any.
pub open spec fn attribute_list(n: NodeView) -> Seq<Pair> {
    match n {
        NodeView::Element(el) => in_order(el.attributes),
        _ => Seq::empty(),
    }
}

/// The attributes of `node` in their order.
pub fn attr_entries(dom: &Dom, node: NodePtr) -> (res: Vec<(String, String)>)
    requires
        node < dom@.len(),
    ensures
        res@.map_values(|e: (String, String)| (e.0@, e.1@)) == attribute_list(dom@[node as int]),
{
    match dom.node(node) {
        Node::Element(el) => el.attributes.entries(),
        _ => {
            let none: Vec<(String, String)> = Vec::new();
            assert(none@.map_values(|e: (String, String)| (e.0@, e.1@)) =~= Seq::<Pair>::empty());
            none
        },
    }
}

/// Whether `node` has attributes.
pub fn has_attributes(dom: &Dom, node: NodePtr) -> (res: bool)
    requires
        node < dom@.len(),
    ensures
        res == (attribute_list(dom@[node as int]).len() > 0),
{
    let entries = attr_entries(dom, node);
    assert(entries@.map_values(|e: (String, String)| (e.0@, e.1@)).len() == entries@.len());
    entries.len() > 0
}

/// What a document offers by name.
#[derive(Debug, PartialEq, Eq)]
pub struct DocumentFields {
    pub body: Option<NodePtr>,
    pub head: Option<NodePtr>,
    /// The `html` element, or the document itself if it has none.
    pub document_element: NodePtr,
    /// The text of the `title` element.
    pub title: Option<String>,
}

/// What the document offers by name, given the elements with those tag names.
pub fn fields_of(
    dom: &Dom,
    document: NodePtr,
    body: Option<NodePtr>,
    head: Option<NodePtr>,
    html: Option<NodePtr>,
    title: Option<NodePtr>,
) -> (res: DocumentFields)
    requires
        dom.wf(),
        title matches Some(t) ==> finite_from(dom@, t, Reach::Children),
    ensures
        res.body == body,
        res.head == head,
        res.document_element == (match html {
            Some(element) => element,
            None => document,
        }),
        match (res.title, title) {
            (Some(text), Some(t)) => text@ == crate::js::mutation::text_of(dom@, t, dom@.len()),
            (None, None) => true,
            _ => false,
        },
{
    DocumentFields {
        body,
        head,
        document_element: match html {
            Some(element) => element,
            None => document,
        },
        title: match title {
            Some(t) => Some(crate::js::mutation::collect_text(dom, t)),
            None => None,
        },
    }
}

/// The elements of a subtree that an upgrade considers: the root if it is an
/// element, and all elements below it.
pub open spec fn upgrade_list(d: DomView, root: NodePtr, below: Seq<NodePtr>) -> Seq<NodePtr> {
    if d[root as int] is Element {
        seq![root] + below
    } else {
        below
    }
}

/// The elements that an upgrade of the subtree at `root` considers, given the
/// elements below it.
pub fn upgrade_candidates(dom: &Dom, root: NodePtr, below: &Vec<NodePtr>) -> (res: Vec<NodePtr>)
    requires
        root < dom@.len(),
    ensures
        res@ == upgrade_list(dom@, root, below@),
{
    let mut res: Vec<NodePtr> = Vec::new();
    if is_element_node(dom, root) {
        res.push(root);
    }
    let ghost start = res@;
    let mut i: usize = 0;
    assert(start + below@.take(0) =~= start);
    while i < below.len()
        invariant
            i <= below.len(),
            res@ == start + below@.take(i as int),
        decreases below.len() - i,
    {
        res.push(below[i]);
        i = i + 1;
        assert(res@ =~= start + below@.take(i as int));
    }
    assert(below@.take(i as int) =~= below@);
    assert(res@ =~= upgrade_list(dom@, root, below@));
    res
}

/// A new element for `document.createElement(tag)`.
pub fn create_element(dom: &mut Dom, tag: &str) -> (node: NodePtr)
    requires
        old(dom).wf(),
    ensures
        final(dom).wf(),
        node == old(dom)@.len(),
        final(dom)@ == old(dom)@.push(
            fresh_element(lower_form(tag@), Map::empty(), Seq::empty()),
        ),
{
    let name = to_lowercase(tag);
    Node::element(dom, name.as_str(), Vec::new())
}

/// A node that `closest` looks at, in the arena as it is then.
pub struct Step {
    pub dom: DomView,
    pub node: NodePtr,
}

/// The arena after a selector was tried on `n`.
pub open spec fn tried(d: DomView, root: NodePtr, n: NodePtr) -> DomView {
    if d[n as int] is Element {
        in_place(d, root, n).0
    } else {
        d
    }
}

/// The nodes that `closest` looks at: `n`, its parent, and so on.
pub open spec fn climbed(d: DomView, root: NodePtr, n: NodePtr, fuel: nat) -> Seq<Step>
    decreases fuel,
{
    if fuel == 0 {
        Seq::empty()
    } else {
        let (e, parent) = script_parent(tried(d, root, n), n);
        seq![Step { dom: d, node: n }] + match parent {
            Some(p) => climbed(e, root, p, (fuel - 1) as nat),
            None => Seq::empty(),
        }
    }
}

/// Whether the climb from `n` ends.
pub open spec fn closest_ends(d: DomView, root: NodePtr, n: NodePtr, fuel: nat) -> bool
    decreases fuel,
{
    let e = tried(d, root, n);
    &&& fuel > 0
    &&& finite_from(d, root, Reach::Inert)
    &&& lookups_end(d, root, n, d.len())
    &&& parent_lookup_ends(e, n)
    &&& script_parent(e, n).1 matches Some(p) ==> closest_ends(
        script_parent(e, n).0,
        root,
        p,
        (fuel - 1) as nat,
    )
}

/// Whether the matcher may accept, or reject, the node of a step.
pub open spec fn judged<F: Fn(&ElementData, &Vec<ElementData>, &Vec<ElementData>, usize) -> bool>(
    f: F,
    root: NodePtr,
    s: Step,
    verdict: bool,
) -> bool {
    if s.dom[s.node as int] is Element {
        answers(f, in_place(s.dom, root, s.node).1, verdict)
    } else {
        !verdict
    }
}

/// The nearest node at or above `node` that `matcher` accepts. The document ends
/// up as the last node that was looked at left it: with its surroundings looked
/// up and, where it was rejected, its parent too.
pub fn closest<F: Fn(&ElementData, &Vec<ElementData>, &Vec<ElementData>, usize) -> bool>(
    dom: &mut Dom,
    node: NodePtr,
    root: NodePtr,
    matcher: &F,
) -> (res: Option<NodePtr>)
    requires
        old(dom).wf(),
        node < old(dom)@.len(),
        closest_ends(old(dom)@, root, node, old(dom)@.len()),
        forall|a: &ElementData, b: &Vec<ElementData>, c: &Vec<ElementData>, i: usize|
            call_requires(*matcher, (a, b, c, i)),
    ensures
        final(dom).wf(),
        ({
            let steps = climbed(old(dom)@, root, node, old(dom)@.len());
            match res {
                Some(found) => exists|i: int|
                    0 <= i < steps.len() && found == (#[trigger] steps[i]).node && judged(
                        *matcher,
                        root,
                        steps[i],
                        true,
                    ) && (forall|j: int|
                        0 <= j < i ==> judged(*matcher, root, #[trigger] steps[j], false))
                        && final(dom)@ == tried(steps[i].dom, root, steps[i].node),
                None => {
                    &&& forall|j: int|
                        0 <= j < steps.len() ==> judged(*matcher, root, #[trigger] steps[j], false)
                    &&& final(dom)@ == script_parent(
                        tried(steps.last().dom, root, steps.last().node),
                        steps.last().node,
                    ).0
                },
            }
        }),
{
    let ghost steps = climbed(dom@, root, node, dom@.len());
    let ghost mut fuel = dom@.len();
    let ghost mut done: Seq<Step> = Seq::empty();
    let mut current: NodePtr = node;
    assert(done + steps =~= steps);
    loop
        invariant
            dom.wf(),
            current < dom@.len(),
            closest_ends(dom@, root, current, fuel),
            forall|a: &ElementData, b: &Vec<ElementData>, c: &Vec<ElementData>, i: usize|
                call_requires(*matcher, (a, b, c, i)),
            steps == climbed(old(dom)@, root, node, old(dom)@.len()),
            steps == done + climbed(dom@, root, current, fuel),
            forall|j: int|
                0 <= j < done.len() ==> judged(*matcher, root, #[trigger] done[j], false),
        decreases fuel,
    {
        let ghost step = Step { dom: dom@, node: current };
        let ghost rest = climbed(dom@, root, current, fuel);
        proof {
            assert(rest[0] == step);
            assert(steps[done.len() as int] == step);
            assert forall|j: int| 0 <= j < done.len() implies steps[j] == #[trigger] done[j] by {}
        }
        if selector_matches(dom, current, root, matcher) {
            proof {
                let at = done.len() as int;
                assert forall|j: int| 0 <= j < at implies judged(
                    *matcher,
                    root,
                    #[trigger] steps[j],
                    false,
                ) by {
                    assert(steps[j] == done[j]);
                }
                assert(judged(*matcher, root, steps[at], true));
            }
            return Some(current);
        }
        let ghost before = done;
        proof {
            done = done.push(step);
        }
        match find_parent_for(dom, current) {
            Some(parent) => {
                current = parent;
                proof {
                    fuel = (fuel - 1) as nat;
                    assert(rest =~= seq![step] + climbed(dom@, root, current, fuel));
                    assert(before + (seq![step] + climbed(dom@, root, current, fuel)) =~= done
                        + climbed(dom@, root, current, fuel));
                }
            },
            None => {
                proof {
                    assert(steps =~= done);
                }
                return None;
            },
        }
    }
}

} // verus!
