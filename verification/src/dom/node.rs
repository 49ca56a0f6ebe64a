//! The node arena.
//!
//! A [`Dom`] owns every node; a [`NodePtr`] names one. Two pointers name the
//! same node exactly when they are equal. A parent link keeps nothing alive: who
//! gives up a node for good calls [`discard`], and what recorded it as its parent
//! has none from then on. Contracts speak of `dom@`, the sequence of node views.

use crate::dom::attributes::Attributes;
use crate::text::text_eq;
use vstd::prelude::*;

verus! {

/// Names a node of a [`Dom`].
pub type NodePtr = usize;

/// Back-pointer from a node to its parent.
///
/// All links compare equal: structural comparison of nodes ignores the parent.
#[derive(Debug, Clone, Copy)]
pub struct ParentLink(pub Option<NodePtr>);

impl PartialEq for ParentLink {
    fn eq(&self, _other: &Self) -> (res: bool) {
        true
    }
}

impl vstd::std_specs::cmp::PartialEqSpecImpl for ParentLink {
    open spec fn obeys_eq_spec() -> bool {
        true
    }

    open spec fn eq_spec(&self, other: &Self) -> bool {
        true
    }
}

impl Eq for ParentLink {

}

#[derive(Debug, Clone, Copy, PartialEq, Eq, Structural)]
pub enum DocumentMode {
    NoQuirks,
    Quirks,
    LimitedQuirks,
}

/// A node of the document tree.
#[derive(Debug)]
pub enum Node {
    /// Document root with its top-level children.
    Document { children: Vec<NodePtr>, mode: DocumentMode },
    /// Element with tag name, attributes and children.
    Element(ElementNode),
    /// Character data.
    Text(TextNode),
    /// Comment: character data that is never rendered and takes no part in the
    /// text of its ancestors.
    Comment(TextNode),
}

/// Character data with its parent.
#[derive(Debug)]
pub struct TextNode {
    pub content: String,
    pub parent: ParentLink,
}

/// An element.
#[derive(Debug)]
pub struct ElementNode {
    /// Tag name, for example `div`, `p` or `span`.
    pub tag_name: String,
    /// Attribute names with their values.
    pub attributes: Attributes,
    /// Children in tree order.
    pub children: Vec<NodePtr>,
    /// Contents of a `<template>`, kept apart from the children.
    pub template_contents: Option<NodePtr>,
    /// Shadow root, kept apart from the children.
    pub shadow_root: Option<NodePtr>,
    /// For a `<slot>`, the light nodes that were distributed to it.
    pub assigned_nodes: Vec<NodePtr>,
    /// Back-pointer to the parent.
    pub parent: ParentLink,
    /// Whether a custom element has been upgraded; read by `:defined`.
    pub custom_element_defined: bool,
}

/// What an element holds.
pub struct ElementView {
    pub tag_name: Seq<char>,
    pub attributes: Map<Seq<char>, Seq<char>>,
    pub children: Seq<NodePtr>,
    pub template_contents: Option<NodePtr>,
    pub shadow_root: Option<NodePtr>,
    pub assigned_nodes: Seq<NodePtr>,
    pub parent: Option<NodePtr>,
    pub custom_element_defined: bool,
}

/// What a node holds.
pub enum NodeView {
    Document { children: Seq<NodePtr>, mode: DocumentMode },
    Element(ElementView),
    Text { content: Seq<char>, parent: Option<NodePtr> },
    Comment { content: Seq<char>, parent: Option<NodePtr> },
}

impl View for ElementNode {
    type V = ElementView;

    open spec fn view(&self) -> ElementView {
        ElementView {
            tag_name: self.tag_name@,
            attributes: self.attributes@,
            children: self.children@,
            template_contents: self.template_contents,
            shadow_root: self.shadow_root,
            assigned_nodes: self.assigned_nodes@,
            parent: self.parent.0,
            custom_element_defined: self.custom_element_defined,
        }
    }
}

impl View for Node {
    type V = NodeView;

    open spec fn view(&self) -> NodeView {
        match self {
            Node::Document { children, mode } => NodeView::Document {
                children: children@,
                mode: *mode,
            },
            Node::Element(el) => NodeView::Element(el@),
            Node::Text(t) => NodeView::Text { content: t.content@, parent: t.parent.0 },
            Node::Comment(t) => NodeView::Comment { content: t.content@, parent: t.parent.0 },
        }
    }
}

/// The contents of an arena.
pub type DomView = Seq<NodeView>;

/// Owner of all nodes.
#[derive(Debug)]
pub struct Dom {
    nodes: Vec<Node>,
}

impl View for Dom {
    type V = DomView;

    closed spec fn view(&self) -> DomView {
        self.nodes@.map_values(|n: Node| n@)
    }
}

/// Whether `p`, if there is one, names one of `len` nodes.
pub open spec fn link_ok(p: Option<NodePtr>, len: nat) -> bool {
    p matches Some(x) ==> x < len
}

/// Whether every pointer of the list names one of `len` nodes.
pub open spec fn links_ok(s: Seq<NodePtr>, len: nat) -> bool {
    forall|i: int| 0 <= i < s.len() ==> #[trigger] s[i] < len
}

/// Whether every pointer that a node holds names one of `len` nodes.
pub open spec fn node_ok(n: NodeView, len: nat) -> bool {
    match n {
        NodeView::Document { children, mode } => links_ok(children, len),
        NodeView::Element(el) => {
            &&& links_ok(el.children, len)
            &&& links_ok(el.assigned_nodes, len)
            &&& link_ok(el.template_contents, len)
            &&& link_ok(el.shadow_root, len)
            &&& link_ok(el.parent, len)
        },
        NodeView::Text { content, parent } => link_ok(parent, len),
        NodeView::Comment { content, parent } => link_ok(parent, len),
    }
}

/// Whether no pointer dangles.
pub open spec fn closed_links(d: DomView) -> bool {
    forall|i: int| 0 <= i < d.len() ==> node_ok(#[trigger] d[i], d.len())
}

/// The parent that a node records; a document records none.
pub open spec fn parent_of(n: NodeView) -> Option<NodePtr> {
    match n {
        NodeView::Document { children, mode } => None,
        NodeView::Element(el) => el.parent,
        NodeView::Text { content, parent } => parent,
        NodeView::Comment { content, parent } => parent,
    }
}

/// `n` with another parent; a document is left as it is.
pub open spec fn with_parent(n: NodeView, p: Option<NodePtr>) -> NodeView {
    match n {
        NodeView::Document { children, mode } => n,
        NodeView::Element(el) => NodeView::Element(ElementView { parent: p, ..el }),
        NodeView::Text { content, parent } => NodeView::Text { content, parent: p },
        NodeView::Comment { content, parent } => NodeView::Comment { content, parent: p },
    }
}

/// Whether a node keeps a child list.
pub open spec fn is_container(n: NodeView) -> bool {
    n is Document || n is Element
}

/// The child list of a node; character data has none.
pub open spec fn children_of(n: NodeView) -> Seq<NodePtr> {
    match n {
        NodeView::Document { children, mode } => children,
        NodeView::Element(el) => el.children,
        _ => Seq::empty(),
    }
}

/// `n` with another child list; character data is left as it is.
pub open spec fn with_children(n: NodeView, kids: Seq<NodePtr>) -> NodeView {
    match n {
        NodeView::Document { children, mode } => NodeView::Document { children: kids, mode },
        NodeView::Element(el) => NodeView::Element(ElementView { children: kids, ..el }),
        _ => n,
    }
}

/// The list of at most one pointer.
pub open spec fn opt_seq(p: Option<NodePtr>) -> Seq<NodePtr> {
    match p {
        Some(x) => seq![x],
        None => Seq::empty(),
    }
}

/// The subtrees that an element keeps beside its children: template contents,
/// then shadow root.
pub open spec fn retained_of(n: NodeView) -> Seq<NodePtr> {
    match n {
        NodeView::Element(el) => opt_seq(el.template_contents) + opt_seq(el.shadow_root),
        _ => Seq::empty(),
    }
}

/// The arena in which `c` has the parent `p`.
pub open spec fn reparented(d: DomView, c: NodePtr, p: Option<NodePtr>) -> DomView {
    d.update(c as int, with_parent(d[c as int], p))
}

/// The arena in which `n` has the child list `kids`.
pub open spec fn rechilded(d: DomView, n: NodePtr, kids: Seq<NodePtr>) -> DomView {
    d.update(n as int, with_children(d[n as int], kids))
}

/// The view of a fresh element.
pub open spec fn fresh_element(
    tag: Seq<char>,
    attributes: Map<Seq<char>, Seq<char>>,
    children: Seq<NodePtr>,
) -> NodeView {
    NodeView::Element(
        ElementView {
            tag_name: tag,
            attributes,
            children,
            template_contents: None,
            shadow_root: None,
            assigned_nodes: Seq::empty(),
            parent: None,
            custom_element_defined: false,
        },
    )
}

impl Dom {
    /// Whether no pointer dangles.
    pub open spec fn wf(&self) -> bool {
        closed_links(self@)
    }

    /// An arena is no larger than a vector can be.
    pub proof fn lemma_size(&self)
        ensures
            self@.len() <= usize::MAX,
    {
        assert(self.nodes.len() == self@.len());
    }

    /// An arena without nodes.
    pub fn new() -> (dom: Self)
        ensures
            dom.wf(),
            dom@ == Seq::<NodeView>::empty(),
    {
        let dom = Dom { nodes: Vec::new() };
        assert(dom@ =~= Seq::<NodeView>::empty());
        dom
    }

    /// How many nodes the arena owns.
    pub fn len(&self) -> (n: usize)
        ensures
            n == self@.len(),
    {
        self.nodes.len()
    }

    /// The node that `p` names.
    pub fn node(&self, p: NodePtr) -> (res: &Node)
        requires
            p < self@.len(),
        ensures
            res@ == self@[p as int],
    {
        &self.nodes[p]
    }

    /// Adds a node to the arena.
    pub fn add_node(&mut self, node: Node) -> (p: NodePtr)
        ensures
            final(self)@ == old(self)@.push(node@),
            p == old(self)@.len(),
            old(self).wf() && node_ok(node@, old(self)@.len() + 1) ==> final(self).wf(),
    {
        let p: usize = self.nodes.len();
        self.nodes.push(node);
        assert(self@ =~= old(self)@.push(node@));
        p
    }
}

impl Node {
    /// The element, if the node is one.
    pub fn as_element(&self) -> (res: Option<&ElementNode>)
        ensures
            match res {
                Some(el) => *self == Node::Element(*el),
                None => !(self is Element),
            },
    {
        match self {
            Node::Element(el) => Some(el),
            _ => None,
        }
    }

    /// The element for writing, if the node is one.
    pub fn as_element_mut(&mut self) -> (res: Option<&mut ElementNode>)
        ensures
            match res {
                Some(el) => *old(self) == Node::Element(*el) && *final(self) == Node::Element(
                    *final(el),
                ),
                None => !(*old(self) is Element) && *final(self) == *old(self),
            },
    {
        match self {
            Node::Element(el) => Some(el),
            _ => None,
        }
    }

    /// Create a document over top-level children. Their parents are not set.
    pub fn document(dom: &mut Dom, children: Vec<NodePtr>) -> (node: NodePtr)
        requires
            old(dom).wf(),
            links_ok(children@, old(dom)@.len()),
        ensures
            final(dom).wf(),
            node == old(dom)@.len(),
            final(dom)@ == old(dom)@.push(
                NodeView::Document { children: children@, mode: DocumentMode::NoQuirks },
            ),
    {
        Node::document_with_mode(dom, children, DocumentMode::NoQuirks)
    }

    /// Create a document with the given mode.
    pub fn document_with_mode(
        dom: &mut Dom,
        children: Vec<NodePtr>,
        mode: DocumentMode,
    ) -> (node: NodePtr)
        requires
            old(dom).wf(),
            links_ok(children@, old(dom)@.len()),
        ensures
            final(dom).wf(),
            node == old(dom)@.len(),
            final(dom)@ == old(dom)@.push(NodeView::Document { children: children@, mode }),
    {
        dom.add_node(Node::Document { children, mode })
    }

    /// Create a document fragment.
    pub fn document_fragment(dom: &mut Dom, children: Vec<NodePtr>) -> (node: NodePtr)
        requires
            old(dom).wf(),
            links_ok(children@, old(dom)@.len()),
        ensures
            final(dom).wf(),
            node == old(dom)@.len(),
            final(dom)@ == with_element(
                old(dom)@,
                "#document-fragment"@,
                Map::empty(),
                children@,
            ),
    {
        Node::element(dom, "#document-fragment", children)
    }

    /// Create an element. The children are pointed at it.
    pub fn element_with_attributes(
        dom: &mut Dom,
        tag_name: &str,
        attributes: Attributes,
        children: Vec<NodePtr>,
    ) -> (node: NodePtr)
        requires
            old(dom).wf(),
            links_ok(children@, old(dom)@.len()),
        ensures
            final(dom).wf(),
            node == old(dom)@.len(),
            final(dom)@ == with_element(old(dom)@, tag_name@, attributes@, children@),
    {
        let ghost view = fresh_element(tag_name@, attributes@, children@);
        let ghost kids = children@;
        let node: NodePtr = dom.add_node(
            Node::Element(
                ElementNode {
                    tag_name: tag_name.to_owned(),
                    attributes,
                    children,
                    template_contents: None,
                    shadow_root: None,
                    assigned_nodes: Vec::new(),
                    parent: ParentLink(None),
                    custom_element_defined: false,
                },
            ),
        );
        proof {
            assert(dom@[node as int] == view);
            assert(followed(view, Reach::Retained).len() == 0);
            assert(retained_of(view).len() == 0);
        }
        link_children(dom, node);
        node
    }

    /// Create an element without attributes.
    pub fn element(dom: &mut Dom, tag_name: &str, children: Vec<NodePtr>) -> (node: NodePtr)
        requires
            old(dom).wf(),
            links_ok(children@, old(dom)@.len()),
        ensures
            final(dom).wf(),
            node == old(dom)@.len(),
            final(dom)@ == with_element(old(dom)@, tag_name@, Map::empty(), children@),
    {
        Node::element_with_attributes(dom, tag_name, Attributes::new(), children)
    }

    /// Create a text node.
    pub fn text(dom: &mut Dom, value: &str) -> (node: NodePtr)
        requires
            old(dom).wf(),
        ensures
            final(dom).wf(),
            node == old(dom)@.len(),
            final(dom)@ == old(dom)@.push(NodeView::Text { content: value@, parent: None }),
    {
        dom.add_node(
            Node::Text(TextNode { content: value.to_owned(), parent: ParentLink(None) }),
        )
    }

    /// Create a comment node.
    pub fn comment(dom: &mut Dom, value: &str) -> (node: NodePtr)
        requires
            old(dom).wf(),
        ensures
            final(dom).wf(),
            node == old(dom)@.len(),
            final(dom)@ == old(dom)@.push(NodeView::Comment { content: value@, parent: None }),
    {
        dom.add_node(
            Node::Comment(TextNode { content: value.to_owned(), parent: ParentLink(None) }),
        )
    }
}

/// The arena with one more element, whose children point at it.
pub open spec fn with_element(
    d: DomView,
    tag: Seq<char>,
    attributes: Map<Seq<char>, Seq<char>>,
    children: Seq<NodePtr>,
) -> DomView {
    adopted(d.push(fresh_element(tag, attributes, children)), children, d.len() as NodePtr)
}

/// Set `child`'s parent back-pointer to `parent`; a document keeps none.
pub fn set_parent(dom: &mut Dom, child: NodePtr, parent: NodePtr)
    requires
        old(dom).wf(),
        child < old(dom)@.len(),
        parent < old(dom)@.len(),
    ensures
        final(dom).wf(),
        final(dom)@ == reparented(old(dom)@, child, Some(parent)),
{
    match &mut dom.nodes[child] {
        Node::Element(el) => {
            el.parent = ParentLink(Some(parent));
        },
        Node::Text(text) => {
            text.parent = ParentLink(Some(parent));
        },
        Node::Comment(text) => {
            text.parent = ParentLink(Some(parent));
        },
        Node::Document { .. } => {},
    }
    assert(dom@ =~= reparented(old(dom)@, child, Some(parent)));
}

/// Clear `child`'s parent back-pointer.
pub fn clear_parent(dom: &mut Dom, child: NodePtr)
    requires
        old(dom).wf(),
        child < old(dom)@.len(),
    ensures
        final(dom).wf(),
        final(dom)@ == reparented(old(dom)@, child, None),
{
    match &mut dom.nodes[child] {
        Node::Element(el) => {
            el.parent = ParentLink(None);
        },
        Node::Text(text) => {
            text.parent = ParentLink(None);
        },
        Node::Comment(text) => {
            text.parent = ParentLink(None);
        },
        Node::Document { .. } => {},
    }
    assert(dom@ =~= reparented(old(dom)@, child, None));
}

/// The arena in which nothing records `gone` as its parent any more.
pub open spec fn orphaned(d: DomView, gone: NodePtr) -> DomView {
    Seq::new(
        d.len(),
        |i: int|
            if parent_of(d[i]) == Some(gone) {
                with_parent(d[i], None)
            } else {
                d[i]
            },
    )
}

/// Gives up `node` for good: the nodes that recorded it as their parent record
/// none.
pub fn discard(dom: &mut Dom, node: NodePtr)
    requires
        old(dom).wf(),
    ensures
        final(dom).wf(),
        final(dom)@ == orphaned(old(dom)@, node),
{
    let ghost d = dom@;
    let mut i: usize = 0;
    while i < dom.nodes.len()
        invariant
            dom.wf(),
            i <= d.len(),
            dom@.len() == d.len(),
            forall|j: int| 0 <= j < i ==> #[trigger] dom@[j] == orphaned(d, node)[j],
            forall|j: int| i <= j < d.len() ==> #[trigger] dom@[j] == d[j],
        decreases d.len() - i,
    {
        if let Some(parent) = parent_ptr(dom, i) {
            if parent == node {
                clear_parent(dom, i);
            }
        }
        i = i + 1;
    }
    assert(dom@ =~= orphaned(d, node));
}

/// A node that was given up is nobody's parent. Every other parent, and all else
/// that a node holds, is as before.
pub proof fn law_discarded_parents_are_gone(d: DomView, gone: NodePtr, n: NodePtr)
    requires
        n < d.len(),
    ensures
        parent_of(orphaned(d, gone)[n as int]) == (if parent_of(d[n as int]) == Some(gone) {
            None
        } else {
            parent_of(d[n as int])
        }),
        with_parent(orphaned(d, gone)[n as int], parent_of(d[n as int])) == d[n as int],
{
}

/// The parent that `node` records.
pub fn parent_ptr(dom: &Dom, node: NodePtr) -> (res: Option<NodePtr>)
    requires
        node < dom@.len(),
    ensures
        res == parent_of(dom@[node as int]),
{
    match dom.node(node) {
        Node::Element(el) => el.parent.0,
        Node::Text(text) => text.parent.0,
        Node::Comment(text) => text.parent.0,
        Node::Document { .. } => None,
    }
}

/// A copy of a pointer list.
pub fn copy_list(list: &Vec<NodePtr>) -> (res: Vec<NodePtr>)
    ensures
        res@ == list@,
{
    let res = list.clone();
    assert(res@ =~= list@);
    res
}

/// The child list of `node`; empty for character data.
pub fn child_nodes(dom: &Dom, node: NodePtr) -> (res: Vec<NodePtr>)
    requires
        node < dom@.len(),
    ensures
        res@ == children_of(dom@[node as int]),
{
    match dom.node(node) {
        Node::Element(el) => copy_list(&el.children),
        Node::Document { children, .. } => copy_list(children),
        Node::Text(_) => Vec::new(),
        Node::Comment(_) => Vec::new(),
    }
}

/// Replaces the child list of `node`; character data is left as it is.
pub fn set_children(dom: &mut Dom, node: NodePtr, kids: Vec<NodePtr>)
    requires
        old(dom).wf(),
        node < old(dom)@.len(),
        links_ok(kids@, old(dom)@.len()),
    ensures
        final(dom).wf(),
        final(dom)@ == rechilded(old(dom)@, node, kids@),
{
    let ghost list = kids@;
    match &mut dom.nodes[node] {
        Node::Element(el) => {
            el.children = kids;
        },
        Node::Document { children, .. } => {
            *children = kids;
        },
        Node::Text(_) => {},
        Node::Comment(_) => {},
    }
    assert(dom@ =~= rechilded(old(dom)@, node, list));
}

/// Template contents and shadow root of `node`, as far as it has them.
pub fn retained_nodes(dom: &Dom, node: NodePtr) -> (res: Vec<NodePtr>)
    requires
        node < dom@.len(),
    ensures
        res@ == retained_of(dom@[node as int]),
{
    let mut res: Vec<NodePtr> = Vec::new();
    if let Node::Element(el) = dom.node(node) {
        if let Some(content) = el.template_contents {
            res.push(content);
        }
        if let Some(root) = el.shadow_root {
            res.push(root);
        }
    }
    assert(res@ =~= retained_of(dom@[node as int]));
    res
}

/// Which links a walk follows.
#[derive(Clone, Copy, Debug, PartialEq, Eq, Structural)]
pub enum Reach {
    /// Children alone.
    Children,
    /// Children and template contents.
    Inert,
    /// Template contents and shadow root.
    Retained,
    /// Children, template contents and shadow root.
    All,
    /// Children of elements alone.
    ElementChildren,
}

/// The links of a node that a walk follows, in the order in which it does.
pub open spec fn followed(n: NodeView, reach: Reach) -> Seq<NodePtr> {
    match reach {
        Reach::Children => children_of(n),
        Reach::Inert => match n {
            NodeView::Element(el) => el.children + opt_seq(el.template_contents),
            _ => children_of(n),
        },
        Reach::Retained => retained_of(n),
        Reach::All => children_of(n) + retained_of(n),
        Reach::ElementChildren => if n is Element {
            children_of(n)
        } else {
            Seq::empty()
        },
    }
}

/// Whether every walk from `n` ends within `fuel` nodes.
pub open spec fn ends_within(d: DomView, n: NodePtr, reach: Reach, fuel: nat) -> bool
    decreases fuel,
{
    &&& fuel > 0
    &&& n < d.len()
    &&& forall|i: int|
        0 <= i < followed(d[n as int], reach).len() ==> ends_within(
            d,
            #[trigger] followed(d[n as int], reach)[i],
            reach,
            (fuel - 1) as nat,
        )
}

/// Whether the walk from `n` ends: no node is its own descendant. A walk
/// without repetition visits at most as many nodes as there are.
pub open spec fn finite_from(d: DomView, n: NodePtr, reach: Reach) -> bool {
    ends_within(d, n, reach, d.len())
}

/// Whether the nodes of `d` have the same links of the given reach in `e`.
pub open spec fn same_links(d: DomView, e: DomView, reach: Reach) -> bool {
    &&& d.len() <= e.len()
    &&& forall|i: int|
        0 <= i < d.len() ==> followed(#[trigger] d[i], reach) == followed(e[i], reach)
}

/// A walk ends alike in arenas with the same links.
pub proof fn lemma_same_links(d: DomView, e: DomView, n: NodePtr, reach: Reach, fuel: nat)
    requires
        same_links(d, e, reach),
        ends_within(d, n, reach, fuel),
    ensures
        ends_within(e, n, reach, fuel),
    decreases fuel,
{
    let kids = followed(e[n as int], reach);
    assert(followed(d[n as int], reach) == kids);
    assert forall|i: int| 0 <= i < kids.len() implies ends_within(
        e,
        #[trigger] kids[i],
        reach,
        (fuel - 1) as nat,
    ) by {
        lemma_same_links(d, e, kids[i], reach, (fuel - 1) as nat);
    }
}

/// A walk that ends within `f` nodes ends within more.
pub proof fn lemma_more_fuel(d: DomView, n: NodePtr, reach: Reach, f: nat, g: nat)
    requires
        ends_within(d, n, reach, f),
        f <= g,
    ensures
        ends_within(d, n, reach, g),
    decreases f,
{
    let kids = followed(d[n as int], reach);
    assert forall|i: int| 0 <= i < kids.len() implies ends_within(
        d,
        #[trigger] kids[i],
        reach,
        (g - 1) as nat,
    ) by {
        lemma_more_fuel(d, kids[i], reach, (f - 1) as nat, (g - 1) as nat);
    }
}

/// The arena in which every node of the list has the parent `p`.
pub open spec fn adopted(d: DomView, kids: Seq<NodePtr>, p: NodePtr) -> DomView
    decreases kids.len(),
{
    if kids.len() == 0 {
        d
    } else {
        reparented(adopted(d, kids.drop_last(), p), kids.last(), Some(p))
    }
}

/// The arena after `node`'s children and, level by level, the subtrees that it
/// retains have been pointed at their owners.
pub open spec fn linked(d: DomView, n: NodePtr, fuel: nat) -> DomView
    decreases fuel, 1nat, 0nat,
{
    linked_all(adopted(d, children_of(d[n as int]), n), retained_of(d[n as int]), n, fuel)
}

/// [`linked`] for a list of retained subtrees of `n`.
pub open spec fn linked_all(d: DomView, kids: Seq<NodePtr>, n: NodePtr, fuel: nat) -> DomView
    decreases fuel, 0nat, kids.len(),
{
    if kids.len() == 0 || fuel == 0 {
        d
    } else {
        let e = reparented(linked_all(d, kids.drop_last(), n, fuel), kids.last(), Some(n));
        linked(e, kids.last(), (fuel - 1) as nat)
    }
}

/// The arena after a walk over the subtree of `n` has pointed each node at its
/// owner.
pub open spec fn relinked(d: DomView, n: NodePtr, fuel: nat) -> DomView
    decreases fuel, 1nat, 0nat,
{
    relinked_all(d, followed(d[n as int], Reach::All), n, fuel)
}

/// [`relinked`] for a list of subtrees owned by `n`.
pub open spec fn relinked_all(d: DomView, kids: Seq<NodePtr>, n: NodePtr, fuel: nat) -> DomView
    decreases fuel, 0nat, kids.len(),
{
    if kids.len() == 0 || fuel == 0 {
        d
    } else {
        let e = reparented(relinked_all(d, kids.drop_last(), n, fuel), kids.last(), Some(n));
        relinked(e, kids.last(), (fuel - 1) as nat)
    }
}

/// Whether two arenas differ at most in parent back-pointers.
pub open spec fn same_but_parents(d: DomView, e: DomView) -> bool {
    &&& d.len() == e.len()
    &&& forall|i: int|
        0 <= i < d.len() ==> #[trigger] e[i] == with_parent(d[i], parent_of(e[i]))
}

proof fn lemma_same_but_parents_links(d: DomView, e: DomView, reach: Reach)
    requires
        same_but_parents(d, e),
    ensures
        same_links(d, e, reach),
{
    assert forall|i: int| 0 <= i < d.len() implies followed(#[trigger] d[i], reach) == followed(
        e[i],
        reach,
    ) by {
        assert(e[i] == with_parent(d[i], parent_of(e[i])));
    }
}

/// Point every child of `node` at `node`, and do the same inside the template
/// contents and the shadow root that it retains.
pub fn link_children(dom: &mut Dom, node: NodePtr)
    requires
        old(dom).wf(),
        node < old(dom)@.len(),
        finite_from(old(dom)@, node, Reach::Retained),
    ensures
        final(dom).wf(),
        final(dom)@ == linked(old(dom)@, node, old(dom)@.len()),
        same_but_parents(old(dom)@, final(dom)@),
{
    let ghost fuel = dom@.len();
    link_children_within(dom, node, Ghost(fuel));
}

fn adopt_children(dom: &mut Dom, kids: &Vec<NodePtr>, parent: NodePtr)
    requires
        old(dom).wf(),
        links_ok(kids@, old(dom)@.len()),
        parent < old(dom)@.len(),
    ensures
        final(dom).wf(),
        final(dom)@ == adopted(old(dom)@, kids@, parent),
        same_but_parents(old(dom)@, final(dom)@),
{
    let mut i: usize = 0;
    while i < kids.len()
        invariant
            i <= kids.len(),
            dom.wf(),
            links_ok(kids@, old(dom)@.len()),
            parent < old(dom)@.len(),
            dom@ == adopted(old(dom)@, kids@.take(i as int), parent),
            same_but_parents(old(dom)@, dom@),
        decreases kids.len() - i,
    {
        let ghost mid = dom@;
        set_parent(dom, kids[i], parent);
        proof {
            let next = kids@.take(i + 1);
            assert(next.drop_last() == kids@.take(i as int));
            assert(next.last() == kids@[i as int]);
            assert forall|j: int| 0 <= j < dom@.len() implies #[trigger] dom@[j] == with_parent(
                old(dom)@[j],
                parent_of(dom@[j]),
            ) by {
                assert(mid[j] == with_parent(old(dom)@[j], parent_of(mid[j])));
            }
        }
        i = i + 1;
    }
    assert(kids@.take(i as int) == kids@);
}

fn link_children_within(dom: &mut Dom, node: NodePtr, Ghost(fuel): Ghost<nat>)
    requires
        old(dom).wf(),
        ends_within(old(dom)@, node, Reach::Retained, fuel),
    ensures
        final(dom).wf(),
        final(dom)@ == linked(old(dom)@, node, fuel),
        same_but_parents(old(dom)@, final(dom)@),
    decreases fuel,
{
    let kids = child_nodes(dom, node);
    let retained = retained_nodes(dom, node);
    proof {
        assert(node_ok(dom@[node as int], dom@.len()));
    }
    adopt_children(dom, &kids, node);
    let ghost base = dom@;
    let mut i: usize = 0;
    while i < retained.len()
        invariant
            i <= retained.len(),
            dom.wf(),
            node < old(dom)@.len(),
            links_ok(retained@, old(dom)@.len()),
            retained@ == followed(old(dom)@[node as int], Reach::Retained),
            ends_within(old(dom)@, node, Reach::Retained, fuel),
            base == adopted(old(dom)@, kids@, node),
            dom@ == linked_all(base, retained@.take(i as int), node, fuel),
            same_but_parents(old(dom)@, dom@),
        decreases retained.len() - i,
    {
        let ghost mid = dom@;
        let kid: NodePtr = retained[i];
        set_parent(dom, kid, node);
        proof {
            let next = retained@.take(i + 1);
            assert(next.drop_last() == retained@.take(i as int));
            assert(next.last() == kid);
            assert forall|j: int| 0 <= j < dom@.len() implies #[trigger] dom@[j] == with_parent(
                old(dom)@[j],
                parent_of(dom@[j]),
            ) by {
                assert(mid[j] == with_parent(old(dom)@[j], parent_of(mid[j])));
            }
            lemma_same_but_parents_links(old(dom)@, dom@, Reach::Retained);
            assert(followed(old(dom)@[node as int], Reach::Retained)[i as int] == kid);
            lemma_same_links(old(dom)@, dom@, kid, Reach::Retained, (fuel - 1) as nat);
        }
        let ghost entry = dom@;
        link_children_within(dom, kid, Ghost((fuel - 1) as nat));
        proof {
            assert forall|j: int| 0 <= j < dom@.len() implies #[trigger] dom@[j] == with_parent(
                old(dom)@[j],
                parent_of(dom@[j]),
            ) by {
                assert(dom@[j] == with_parent(entry[j], parent_of(dom@[j])));
                assert(entry[j] == with_parent(old(dom)@[j], parent_of(entry[j])));
            }
        }
        i = i + 1;
    }
    assert(retained@.take(i as int) == retained@);
}

/// All nodes that `node` owns: children, template contents, shadow root.
fn owned_nodes(dom: &Dom, node: NodePtr) -> (res: Vec<NodePtr>)
    requires
        node < dom@.len(),
    ensures
        res@ == followed(dom@[node as int], Reach::All),
{
    let mut res = child_nodes(dom, node);
    let mut retained = retained_nodes(dom, node);
    res.append(&mut retained);
    res
}

/// Re-establish the parent back-pointers of an entire subtree.
pub fn reparent_subtree(dom: &mut Dom, node: NodePtr)
    requires
        old(dom).wf(),
        node < old(dom)@.len(),
        finite_from(old(dom)@, node, Reach::All),
    ensures
        final(dom).wf(),
        final(dom)@ == relinked(old(dom)@, node, old(dom)@.len()),
        same_but_parents(old(dom)@, final(dom)@),
{
    let ghost fuel = dom@.len();
    reparent_within(dom, node, Ghost(fuel));
}

fn reparent_within(dom: &mut Dom, node: NodePtr, Ghost(fuel): Ghost<nat>)
    requires
        old(dom).wf(),
        ends_within(old(dom)@, node, Reach::All, fuel),
    ensures
        final(dom).wf(),
        final(dom)@ == relinked(old(dom)@, node, fuel),
        same_but_parents(old(dom)@, final(dom)@),
    decreases fuel,
{
    let kids = owned_nodes(dom, node);
    proof {
        assert(node_ok(dom@[node as int], dom@.len()));
    }
    let mut i: usize = 0;
    while i < kids.len()
        invariant
            i <= kids.len(),
            dom.wf(),
            node < old(dom)@.len(),
            links_ok(kids@, old(dom)@.len()),
            kids@ == followed(old(dom)@[node as int], Reach::All),
            ends_within(old(dom)@, node, Reach::All, fuel),
            dom@ == relinked_all(old(dom)@, kids@.take(i as int), node, fuel),
            same_but_parents(old(dom)@, dom@),
        decreases kids.len() - i,
    {
        let ghost mid = dom@;
        let kid: NodePtr = kids[i];
        set_parent(dom, kid, node);
        proof {
            let next = kids@.take(i + 1);
            assert(next.drop_last() == kids@.take(i as int));
            assert(next.last() == kid);
            assert forall|j: int| 0 <= j < dom@.len() implies #[trigger] dom@[j] == with_parent(
                old(dom)@[j],
                parent_of(dom@[j]),
            ) by {
                assert(mid[j] == with_parent(old(dom)@[j], parent_of(mid[j])));
            }
            lemma_same_but_parents_links(old(dom)@, dom@, Reach::All);
            assert(followed(old(dom)@[node as int], Reach::All)[i as int] == kid);
            lemma_same_links(old(dom)@, dom@, kid, Reach::All, (fuel - 1) as nat);
        }
        let ghost entry = dom@;
        reparent_within(dom, kid, Ghost((fuel - 1) as nat));
        proof {
            assert forall|j: int| 0 <= j < dom@.len() implies #[trigger] dom@[j] == with_parent(
                old(dom)@[j],
                parent_of(dom@[j]),
            ) by {
                assert(dom@[j] == with_parent(entry[j], parent_of(dom@[j])));
                assert(entry[j] == with_parent(old(dom)@[j], parent_of(entry[j])));
            }
        }
        i = i + 1;
    }
    assert(kids@.take(i as int) == kids@);
}

/// Whether `owner` names, for every node below `n`, the one node that owns it.
pub open spec fn owned_by(d: DomView, n: NodePtr, owner: spec_fn(NodePtr) -> NodePtr, fuel: nat) -> bool
    decreases fuel,
{
    &&& fuel > 0
    &&& n < d.len()
    &&& forall|i: int|
        0 <= i < followed(d[n as int], Reach::All).len() ==> {
            let k = #[trigger] followed(d[n as int], Reach::All)[i];
            owner(k) == n && owned_by(d, k, owner, (fuel - 1) as nat)
        }
}

/// Whether every node below `n` points at its owner; documents point nowhere.
pub open spec fn points_up(d: DomView, n: NodePtr, fuel: nat) -> bool
    decreases fuel,
{
    &&& fuel > 0
    &&& n < d.len()
    &&& forall|i: int|
        0 <= i < followed(d[n as int], Reach::All).len() ==> {
            let k = #[trigger] followed(d[n as int], Reach::All)[i];
            (d[k as int] is Document || parent_of(d[k as int]) == Some(n)) && points_up(
                d,
                k,
                (fuel - 1) as nat,
            )
        }
}

/// Whether `e` is `d` with some nodes, and at least those of `done`, pointed at
/// their owners.
spec fn partly_linked(
    d: DomView,
    e: DomView,
    owner: spec_fn(NodePtr) -> NodePtr,
    done: Set<NodePtr>,
) -> bool {
    &&& d.len() == e.len()
    &&& forall|x: NodePtr|
        x < d.len() ==> #[trigger] e[x as int] == d[x as int] || e[x as int] == with_parent(
            d[x as int],
            Some(owner(x)),
        )
    &&& forall|x: NodePtr|
        x < d.len() && done.contains(x) ==> #[trigger] e[x as int] == with_parent(
            d[x as int],
            Some(owner(x)),
        )
}

/// The nodes strictly below `n`.
spec fn below(d: DomView, n: NodePtr, x: NodePtr, fuel: nat) -> bool
    decreases fuel,
{
    fuel > 0 && exists|i: int|
        0 <= i < followed(d[n as int], Reach::All).len() && {
            let k = #[trigger] followed(d[n as int], Reach::All)[i];
            k == x || below(d, k, x, (fuel - 1) as nat)
        }
}

proof fn lemma_partly_linked_links(
    d: DomView,
    e: DomView,
    owner: spec_fn(NodePtr) -> NodePtr,
    done: Set<NodePtr>,
)
    requires
        partly_linked(d, e, owner, done),
        d.len() <= usize::MAX,
    ensures
        same_links(d, e, Reach::All),
{
    assert forall|i: int| 0 <= i < d.len() implies followed(#[trigger] d[i], Reach::All)
        == followed(e[i], Reach::All) by {
        let x = i as NodePtr;
        assert(e[x as int] == d[x as int] || e[x as int] == with_parent(
            d[x as int],
            Some(owner(x)),
        ));
    }
}

proof fn lemma_relinked(
    base: DomView,
    d: DomView,
    n: NodePtr,
    owner: spec_fn(NodePtr) -> NodePtr,
    done: Set<NodePtr>,
    fuel: nat,
)
    requires
        closed_links(base),
        base.len() <= usize::MAX,
        partly_linked(base, d, owner, done),
        owned_by(base, n, owner, fuel),
    ensures
        partly_linked(
            base,
            relinked(d, n, fuel),
            owner,
            done.union(Set::new(|x: NodePtr| below(base, n, x, fuel))),
        ),
    decreases fuel, 1nat, 0nat,
{
    lemma_partly_linked_links(base, d, owner, done);
    let kids = followed(d[n as int], Reach::All);
    assert(followed(base[n as int], Reach::All) == kids);
    lemma_relinked_all(base, d, kids, n, owner, done, fuel);
    let all = done.union(Set::new(|x: NodePtr| below(base, n, x, fuel)));
    let got = done.union(
        Set::new(
            |x: NodePtr|
                exists|i: int|
                    0 <= i < kids.len() && (#[trigger] kids[i] == x || below(
                        base,
                        kids[i],
                        x,
                        (fuel - 1) as nat,
                    )),
        ),
    );
    assert forall|x: NodePtr| all.contains(x) implies got.contains(x) by {
        if below(base, n, x, fuel) {
            let i = choose|i: int|
                0 <= i < followed(base[n as int], Reach::All).len() && {
                    let k = #[trigger] followed(base[n as int], Reach::All)[i];
                    k == x || below(base, k, x, (fuel - 1) as nat)
                };
            assert(kids[i] == x || below(base, kids[i], x, (fuel - 1) as nat));
        }
    }
}

proof fn lemma_relinked_all(
    base: DomView,
    d: DomView,
    kids: Seq<NodePtr>,
    n: NodePtr,
    owner: spec_fn(NodePtr) -> NodePtr,
    done: Set<NodePtr>,
    fuel: nat,
)
    requires
        closed_links(base),
        base.len() <= usize::MAX,
        fuel > 0,
        n < base.len(),
        partly_linked(base, d, owner, done),
        forall|i: int|
            0 <= i < kids.len() ==> #[trigger] kids[i] < base.len() && owner(kids[i]) == n
                && owned_by(base, kids[i], owner, (fuel - 1) as nat),
    ensures
        partly_linked(
            base,
            relinked_all(d, kids, n, fuel),
            owner,
            done.union(
                Set::new(
                    |x: NodePtr|
                        exists|i: int|
                            0 <= i < kids.len() && (#[trigger] kids[i] == x || below(
                                base,
                                kids[i],
                                x,
                                (fuel - 1) as nat,
                            )),
                ),
            ),
        ),
    decreases fuel, 0nat, kids.len(),
{
    if kids.len() == 0 {
    } else {
        let front = kids.drop_last();
        let k = kids.last();
        assert forall|i: int| 0 <= i < front.len() implies #[trigger] front[i] < base.len()
            && owner(front[i]) == n && owned_by(base, front[i], owner, (fuel - 1) as nat) by {
            assert(front[i] == kids[i]);
        }
        lemma_relinked_all(base, d, front, n, owner, done, fuel);
        let seen = Set::new(
            |x: NodePtr|
                exists|i: int|
                    0 <= i < front.len() && (#[trigger] front[i] == x || below(
                        base,
                        front[i],
                        x,
                        (fuel - 1) as nat,
                    )),
        );
        let done1 = done.union(seen);
        let d1 = relinked_all(d, front, n, fuel);
        let d2 = reparented(d1, k, Some(n));
        assert(kids[kids.len() - 1] == k);
        assert(k < base.len() && owner(k) == n);
        let done2 = done1.insert(k);
        assert(partly_linked(base, d2, owner, done2)) by {
            assert forall|x: NodePtr| x < base.len() implies (#[trigger] d2[x as int]
                == base[x as int] || d2[x as int] == with_parent(
                base[x as int],
                Some(owner(x)),
            )) && (done2.contains(x) ==> d2[x as int] == with_parent(
                base[x as int],
                Some(owner(x)),
            )) by {
                assert(d1[x as int] == base[x as int] || d1[x as int] == with_parent(
                    base[x as int],
                    Some(owner(x)),
                ));
            }
        }
        lemma_relinked(base, d2, k, owner, done2, (fuel - 1) as nat);
        let got = done2.union(Set::new(|x: NodePtr| below(base, k, x, (fuel - 1) as nat)));
        let all = done.union(
            Set::new(
                |x: NodePtr|
                    exists|i: int|
                        0 <= i < kids.len() && (#[trigger] kids[i] == x || below(
                            base,
                            kids[i],
                            x,
                            (fuel - 1) as nat,
                        )),
            ),
        );
        assert forall|x: NodePtr| all.contains(x) implies got.contains(x) by {
            if !done.contains(x) {
                let i = choose|i: int|
                    0 <= i < kids.len() && (#[trigger] kids[i] == x || below(
                        base,
                        kids[i],
                        x,
                        (fuel - 1) as nat,
                    ));
                if i < front.len() {
                    assert(front[i] == x || below(base, front[i], x, (fuel - 1) as nat));
                }
            }
        }
    }
}

proof fn lemma_points_up(
    base: DomView,
    e: DomView,
    n: NodePtr,
    owner: spec_fn(NodePtr) -> NodePtr,
    done: Set<NodePtr>,
    fuel: nat,
)
    requires
        closed_links(base),
        base.len() <= usize::MAX,
        partly_linked(base, e, owner, done),
        owned_by(base, n, owner, fuel),
        forall|x: NodePtr| below(base, n, x, fuel) ==> done.contains(x),
    ensures
        points_up(e, n, fuel),
    decreases fuel,
{
    lemma_partly_linked_links(base, e, owner, done);
    let kids = followed(e[n as int], Reach::All);
    assert(followed(base[n as int], Reach::All) == kids);
    assert forall|i: int| 0 <= i < kids.len() implies ({
        let k = #[trigger] kids[i];
        (e[k as int] is Document || parent_of(e[k as int]) == Some(n)) && points_up(
            e,
            k,
            (fuel - 1) as nat,
        )
    }) by {
        let k = kids[i];
        assert(followed(base[n as int], Reach::All)[i] == k);
        assert(node_ok(base[n as int], base.len()));
        assert(k < base.len());
        assert(below(base, n, k, fuel));
        assert(done.contains(k));
        assert(e[k as int] == with_parent(base[k as int], Some(owner(k))));
        assert forall|x: NodePtr| below(base, k, x, (fuel - 1) as nat) implies done.contains(x) by {
            assert(below(base, n, x, fuel));
        }
        lemma_points_up(base, e, k, owner, done, (fuel - 1) as nat);
    }
}

/// After [`reparent_subtree`] on a proper tree, every node below the root
/// points at the node that owns it.
pub proof fn law_reparenting_points_up(d: DomView, n: NodePtr, owner: spec_fn(NodePtr) -> NodePtr)
    requires
        closed_links(d),
        d.len() <= usize::MAX,
        owned_by(d, n, owner, d.len()),
    ensures
        points_up(relinked(d, n, d.len()), n, d.len()),
{
    let done = Set::<NodePtr>::empty();
    assert(partly_linked(d, d, owner, done));
    lemma_relinked(d, d, n, owner, done, d.len());
    lemma_points_up(
        d,
        relinked(d, n, d.len()),
        n,
        owner,
        done.union(Set::new(|x: NodePtr| below(d, n, x, d.len()))),
        d.len(),
    );
}

/// Whether a node is an element with the given tag name.
pub open spec fn has_tag(n: NodeView, tag: Seq<char>) -> bool {
    n matches NodeView::Element(el) && el.tag_name == tag
}

/// Whether a node is a document fragment.
pub open spec fn is_fragment(n: NodeView) -> bool {
    has_tag(n, "#document-fragment"@)
}

/// The value of an attribute; only elements carry attributes.
pub open spec fn attribute_of(n: NodeView, name: Seq<char>) -> Option<Seq<char>> {
    match n {
        NodeView::Element(el) => if el.attributes.contains_key(name) {
            Some(el.attributes[name])
        } else {
            None
        },
        _ => None,
    }
}

/// `n` with other attributes; other nodes than elements are left as they are.
pub open spec fn with_attributes(n: NodeView, attributes: Map<Seq<char>, Seq<char>>) -> NodeView {
    match n {
        NodeView::Element(el) => NodeView::Element(ElementView { attributes, ..el }),
        _ => n,
    }
}

/// `n` with another shadow root.
pub open spec fn with_shadow_root(n: NodeView, root: Option<NodePtr>) -> NodeView {
    match n {
        NodeView::Element(el) => NodeView::Element(ElementView { shadow_root: root, ..el }),
        _ => n,
    }
}

/// `n` with other template contents.
pub open spec fn with_template(n: NodeView, content: Option<NodePtr>) -> NodeView {
    match n {
        NodeView::Element(el) => NodeView::Element(
            ElementView { template_contents: content, ..el },
        ),
        _ => n,
    }
}

/// `n` with another list of assigned nodes.
pub open spec fn with_assigned(n: NodeView, nodes: Seq<NodePtr>) -> NodeView {
    match n {
        NodeView::Element(el) => NodeView::Element(ElementView { assigned_nodes: nodes, ..el }),
        _ => n,
    }
}

/// `n` with other character data.
pub open spec fn with_content(n: NodeView, text: Seq<char>) -> NodeView {
    match n {
        NodeView::Text { content, parent } => NodeView::Text { content: text, parent },
        NodeView::Comment { content, parent } => NodeView::Comment { content: text, parent },
        _ => n,
    }
}

/// The shadow root of a node.
pub open spec fn shadow_root_of(n: NodeView) -> Option<NodePtr> {
    match n {
        NodeView::Element(el) => el.shadow_root,
        _ => None,
    }
}

/// The template contents of a node.
pub open spec fn template_of(n: NodeView) -> Option<NodePtr> {
    match n {
        NodeView::Element(el) => el.template_contents,
        _ => None,
    }
}

/// The nodes assigned to a slot.
pub open spec fn assigned_of(n: NodeView) -> Seq<NodePtr> {
    match n {
        NodeView::Element(el) => el.assigned_nodes,
        _ => Seq::empty(),
    }
}

/// Whether `node` is an element with the tag name `tag`.
pub fn node_has_tag(dom: &Dom, node: NodePtr, tag: &str) -> (res: bool)
    requires
        node < dom@.len(),
    ensures
        res == has_tag(dom@[node as int], tag@),
{
    match dom.node(node) {
        Node::Element(el) => text_eq(el.tag_name.as_str(), tag),
        _ => false,
    }
}

/// Whether `node` is a document fragment.
pub fn is_document_fragment(dom: &Dom, node: NodePtr) -> (res: bool)
    requires
        node < dom@.len(),
    ensures
        res == is_fragment(dom@[node as int]),
{
    node_has_tag(dom, node, "#document-fragment")
}

/// Whether `node` is an element.
pub fn is_element_node(dom: &Dom, node: NodePtr) -> (res: bool)
    requires
        node < dom@.len(),
    ensures
        res == (dom@[node as int] is Element),
{
    matches!(dom.node(node), Node::Element(_))
}

/// The value of `node`'s attribute `name`.
pub fn attribute(dom: &Dom, node: NodePtr, name: &str) -> (res: Option<String>)
    requires
        node < dom@.len(),
    ensures
        res is Some == attribute_of(dom@[node as int], name@) is Some,
        res matches Some(v) ==> v@ == attribute_of(dom@[node as int], name@)->0,
{
    match dom.node(node) {
        Node::Element(el) => match el.attributes.get(name) {
            Some(v) => Some(v.clone()),
            None => None,
        },
        _ => None,
    }
}

/// The shadow root of `node`.
pub fn shadow_root(dom: &Dom, node: NodePtr) -> (res: Option<NodePtr>)
    requires
        node < dom@.len(),
    ensures
        res == shadow_root_of(dom@[node as int]),
{
    match dom.node(node) {
        Node::Element(el) => el.shadow_root,
        _ => None,
    }
}

/// The template contents of `node`.
pub fn template_contents(dom: &Dom, node: NodePtr) -> (res: Option<NodePtr>)
    requires
        node < dom@.len(),
    ensures
        res == template_of(dom@[node as int]),
{
    match dom.node(node) {
        Node::Element(el) => el.template_contents,
        _ => None,
    }
}

/// Replaces the shadow root of an element.
pub fn set_shadow_root(dom: &mut Dom, node: NodePtr, root: Option<NodePtr>)
    requires
        old(dom).wf(),
        node < old(dom)@.len(),
        link_ok(root, old(dom)@.len()),
    ensures
        final(dom).wf(),
        final(dom)@ == old(dom)@.update(
            node as int,
            with_shadow_root(old(dom)@[node as int], root),
        ),
{
    if let Node::Element(el) = &mut dom.nodes[node] {
        el.shadow_root = root;
    }
    assert(dom@ =~= old(dom)@.update(node as int, with_shadow_root(old(dom)@[node as int], root)));
}

/// Replaces the template contents of an element.
pub fn set_template_contents(dom: &mut Dom, node: NodePtr, content: Option<NodePtr>)
    requires
        old(dom).wf(),
        node < old(dom)@.len(),
        link_ok(content, old(dom)@.len()),
    ensures
        final(dom).wf(),
        final(dom)@ == old(dom)@.update(
            node as int,
            with_template(old(dom)@[node as int], content),
        ),
{
    if let Node::Element(el) = &mut dom.nodes[node] {
        el.template_contents = content;
    }
    assert(dom@ =~= old(dom)@.update(node as int, with_template(old(dom)@[node as int], content)));
}

/// Replaces the list of nodes assigned to a slot.
pub fn set_assigned_nodes(dom: &mut Dom, node: NodePtr, list: Vec<NodePtr>)
    requires
        old(dom).wf(),
        node < old(dom)@.len(),
        links_ok(list@, old(dom)@.len()),
    ensures
        final(dom).wf(),
        final(dom)@ == old(dom)@.update(
            node as int,
            with_assigned(old(dom)@[node as int], list@),
        ),
{
    let ghost nodes = list@;
    if let Node::Element(el) = &mut dom.nodes[node] {
        el.assigned_nodes = list;
    }
    assert(dom@ =~= old(dom)@.update(node as int, with_assigned(old(dom)@[node as int], nodes)));
}

/// Appends a node to the list assigned to a slot.
pub fn push_assigned_node(dom: &mut Dom, node: NodePtr, item: NodePtr)
    requires
        old(dom).wf(),
        node < old(dom)@.len(),
        item < old(dom)@.len(),
    ensures
        final(dom).wf(),
        final(dom)@ == old(dom)@.update(
            node as int,
            with_assigned(
                old(dom)@[node as int],
                assigned_of(old(dom)@[node as int]).push(item),
            ),
        ),
{
    if let Node::Element(el) = &mut dom.nodes[node] {
        el.assigned_nodes.push(item);
    }
    assert(dom@ =~= old(dom)@.update(
        node as int,
        with_assigned(old(dom)@[node as int], assigned_of(old(dom)@[node as int]).push(item)),
    ));
}

/// Sets an attribute of an element; the value that it had before.
pub fn set_attribute(dom: &mut Dom, node: NodePtr, name: &str, value: &str) -> (prev: Option<String>)
    requires
        old(dom).wf(),
        node < old(dom)@.len(),
    ensures
        final(dom).wf(),
        old(dom)@[node as int] matches NodeView::Element(el) ==> final(dom)@ == old(dom)@.update(
            node as int,
            with_attributes(old(dom)@[node as int], el.attributes.insert(name@, value@)),
        ),
        !(old(dom)@[node as int] is Element) ==> final(dom)@ == old(dom)@,
        prev is Some == attribute_of(old(dom)@[node as int], name@) is Some,
        prev matches Some(v) ==> v@ == attribute_of(old(dom)@[node as int], name@)->0,
{
    let mut prev: Option<String> = None;
    if let Node::Element(el) = &mut dom.nodes[node] {
        prev = el.attributes.insert(name.to_owned(), value.to_owned());
    }
    proof {
        if let NodeView::Element(el) = old(dom)@[node as int] {
            assert(dom@ =~= old(dom)@.update(
                node as int,
                with_attributes(old(dom)@[node as int], el.attributes.insert(name@, value@)),
            ));
        } else {
            assert(dom@ =~= old(dom)@);
        }
    }
    prev
}

/// Removes an attribute of an element; the value that it had.
pub fn remove_attribute(dom: &mut Dom, node: NodePtr, name: &str) -> (prev: Option<String>)
    requires
        old(dom).wf(),
        node < old(dom)@.len(),
    ensures
        final(dom).wf(),
        old(dom)@[node as int] matches NodeView::Element(el) ==> final(dom)@ == old(dom)@.update(
            node as int,
            with_attributes(old(dom)@[node as int], el.attributes.remove(name@)),
        ),
        !(old(dom)@[node as int] is Element) ==> final(dom)@ == old(dom)@,
        prev is Some == attribute_of(old(dom)@[node as int], name@) is Some,
        prev matches Some(v) ==> v@ == attribute_of(old(dom)@[node as int], name@)->0,
{
    let mut prev: Option<String> = None;
    if let Node::Element(el) = &mut dom.nodes[node] {
        prev = el.attributes.remove(name);
    }
    proof {
        if let NodeView::Element(el) = old(dom)@[node as int] {
            assert(dom@ =~= old(dom)@.update(
                node as int,
                with_attributes(old(dom)@[node as int], el.attributes.remove(name@)),
            ));
        } else {
            assert(dom@ =~= old(dom)@);
        }
    }
    prev
}

/// Replaces the character data of a text or comment node.
pub fn set_content(dom: &mut Dom, node: NodePtr, text: &str)
    requires
        old(dom).wf(),
        node < old(dom)@.len(),
    ensures
        final(dom).wf(),
        final(dom)@ == old(dom)@.update(node as int, with_content(old(dom)@[node as int], text@)),
{
    match &mut dom.nodes[node] {
        Node::Text(t) => {
            t.content = text.to_owned();
        },
        Node::Comment(t) => {
            t.content = text.to_owned();
        },
        _ => {},
    }
    assert(dom@ =~= old(dom)@.update(node as int, with_content(old(dom)@[node as int], text@)));
}

/// `n` with another mark of whether it is a defined custom element; other
/// nodes than elements are left as they are.
pub open spec fn with_defined(n: NodeView, defined: bool) -> NodeView {
    match n {
        NodeView::Element(el) => NodeView::Element(
            ElementView { custom_element_defined: defined, ..el },
        ),
        _ => n,
    }
}

/// The arena in which `n` is marked.
pub open spec fn custom_defined(d: DomView, n: NodePtr, defined: bool) -> DomView {
    d.update(n as int, with_defined(d[n as int], defined))
}

/// Marks whether `node` is a defined custom element.
pub fn set_custom_element_defined(dom: &mut Dom, node: NodePtr, defined: bool)
    requires
        old(dom).wf(),
        node < old(dom)@.len(),
    ensures
        final(dom).wf(),
        final(dom)@ == custom_defined(old(dom)@, node, defined),
{
    if let Node::Element(el) = &mut dom.nodes[node] {
        el.custom_element_defined = defined;
    }
    assert(dom@ =~= custom_defined(old(dom)@, node, defined));
}

/// `n` with another mode; other nodes than documents are left as they are.
pub open spec fn with_mode(n: NodeView, m: DocumentMode) -> NodeView {
    match n {
        NodeView::Document { children, mode } => NodeView::Document { children, mode: m },
        _ => n,
    }
}

/// Sets the mode of a document.
pub fn set_document_mode(dom: &mut Dom, node: NodePtr, new_mode: DocumentMode)
    requires
        old(dom).wf(),
        node < old(dom)@.len(),
    ensures
        final(dom).wf(),
        final(dom)@ == old(dom)@.update(node as int, with_mode(old(dom)@[node as int], new_mode)),
{
    if let Node::Document { mode, .. } = &mut dom.nodes[node] {
        *mode = new_mode;
    }
    assert(dom@ =~= old(dom)@.update(node as int, with_mode(old(dom)@[node as int], new_mode)));
}

} // verus!
