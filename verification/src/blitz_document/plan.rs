//! What the renderer has to do so that a subtree is rendered.
//!
//! A draft lists operations on the renderer's tree in order. Nodes that it
//! creates have no id before it runs: the draft counts them, and refers to the
//! first one that it creates as `New(0)`.

use crate::blitz_document::maps::{child_nodes_for_blitz, composable, rendered_children};
use crate::blitz_document::names::{attr_qual_name_from_str, attribute_name, children_namespace,
    element_name, element_qual_name_from_str, namespace_for_children, QualName, QualNameView};
use crate::blitz_document::render::{attribute_views, RenderAttribute, RenderAttributeView};
use crate::dom::attributes::{in_order, Attributes, Pair};
use crate::dom::node::{is_document_fragment, is_fragment, parent_of, parent_ptr, Dom, DomView, Node,
    NodePtr, NodeView};
use crate::dom::shadow::{distributed, is_root_at, ShadowTreeBackend, SyntheticShadowTreeBackend};
use std::collections::BTreeMap;
use vstd::prelude::*;

verus! {

broadcast use vstd::std_specs::btree::group_btree_axioms;

/// A node that an operation names.
#[derive(Debug, Clone, Copy, PartialEq, Eq, Structural)]
pub enum RenderRef {
    /// A node that the renderer has, by its id.
    Existing(usize),
    /// A node that the same draft creates, by its number.
    New(usize),
}

/// An operation on the renderer's tree.
#[derive(Debug)]
pub enum RenderOp {
    CreateText(String),
    CreateComment,
    CreateElement { name: QualName, attrs: Vec<RenderAttribute> },
    AppendChildren { parent: RenderRef, children: Vec<RenderRef> },
    InsertBefore { anchor: usize, nodes: Vec<RenderRef> },
    ReplaceWith { node: usize, nodes: Vec<RenderRef> },
    RemoveNode(usize),
    DropAllChildren(usize),
    SetAttribute { node: usize, name: QualName, value: String },
    ClearAttribute { node: usize, name: QualName },
    SetText { node: usize, text: String },
}

/// The view of [`RenderOp`].
pub enum RenderOpView {
    CreateText(Seq<char>),
    CreateComment,
    CreateElement { name: QualNameView, attrs: Seq<RenderAttributeView> },
    AppendChildren { parent: RenderRef, children: Seq<RenderRef> },
    InsertBefore { anchor: usize, nodes: Seq<RenderRef> },
    ReplaceWith { node: usize, nodes: Seq<RenderRef> },
    RemoveNode(usize),
    DropAllChildren(usize),
    SetAttribute { node: usize, name: QualNameView, value: Seq<char> },
    ClearAttribute { node: usize, name: QualNameView },
    SetText { node: usize, text: Seq<char> },
}

impl View for RenderOp {
    type V = RenderOpView;

    open spec fn view(&self) -> RenderOpView {
        match self {
            RenderOp::CreateText(text) => RenderOpView::CreateText(text@),
            RenderOp::CreateComment => RenderOpView::CreateComment,
            RenderOp::CreateElement { name, attrs } => RenderOpView::CreateElement {
                name: name@,
                attrs: attribute_views(attrs@),
            },
            RenderOp::AppendChildren { parent, children } => RenderOpView::AppendChildren {
                parent: *parent,
                children: children@,
            },
            RenderOp::InsertBefore { anchor, nodes } => RenderOpView::InsertBefore {
                anchor: *anchor,
                nodes: nodes@,
            },
            RenderOp::ReplaceWith { node, nodes } => RenderOpView::ReplaceWith {
                node: *node,
                nodes: nodes@,
            },
            RenderOp::RemoveNode(node) => RenderOpView::RemoveNode(*node),
            RenderOp::DropAllChildren(node) => RenderOpView::DropAllChildren(*node),
            RenderOp::SetAttribute { node, name, value } => RenderOpView::SetAttribute {
                node: *node,
                name: name@,
                value: value@,
            },
            RenderOp::ClearAttribute { node, name } => RenderOpView::ClearAttribute {
                node: *node,
                name: name@,
            },
            RenderOp::SetText { node, text } => RenderOpView::SetText { node: *node, text: text@ },
        }
    }
}

/// The views of a list of operations.
pub open spec fn op_views(s: Seq<RenderOp>) -> Seq<RenderOpView> {
    s.map_values(|op: RenderOp| op@)
}

/// Operations, the nodes that they create in order, and the numbers of those.
#[derive(Debug)]
pub struct Draft {
    pub ops: Vec<RenderOp>,
    pub created: Vec<NodePtr>,
    pub pending: BTreeMap<usize, usize>,
}

/// A draft together with the document.
#[verifier::ext_equal]
pub struct DraftView {
    pub dom: DomView,
    pub ops: Seq<RenderOpView>,
    pub created: Seq<NodePtr>,
    pub pending: Map<usize, usize>,
}

/// The view of a draft.
pub open spec fn draft_view(d: DomView, draft: Draft) -> DraftView {
    DraftView {
        dom: d,
        ops: op_views(draft.ops@),
        created: draft.created@,
        pending: draft.pending@,
    }
}

/// The draft before anything is planned.
pub open spec fn blank(d: DomView) -> DraftView {
    DraftView { dom: d, ops: Seq::empty(), created: Seq::empty(), pending: Map::empty() }
}

/// A draft and a node in it.
#[verifier::ext_equal]
pub struct Drafted {
    pub draft: DraftView,
    pub node: RenderRef,
}

/// The rendered node of `n`, if it has one or will have one.
pub open spec fn known(to_blitz: Map<usize, usize>, w: DraftView, n: NodePtr) -> Option<RenderRef> {
    if to_blitz.contains_key(n) {
        Some(RenderRef::Existing(to_blitz[n]))
    } else if w.pending.contains_key(n) {
        Some(RenderRef::New(w.pending[n]))
    } else {
        None
    }
}

/// The draft that creates a node for `n` by `op`.
pub open spec fn opened(w: DraftView, n: NodePtr, op: RenderOpView) -> DraftView {
    DraftView {
        dom: w.dom,
        ops: w.ops.push(op),
        created: w.created.push(n),
        pending: w.pending.insert(n, w.created.len() as usize),
    }
}

/// The attributes of an element in name order, with qualified names.
pub open spec fn qualified(pairs: Seq<Pair>) -> Seq<RenderAttributeView> {
    pairs.map_values(
        |p: Pair| RenderAttributeView { name: attribute_name(p.0), value: p.1 },
    )
}

/// The tag name of the host of a shadow root; empty where it has none.
pub open spec fn host_tag(d: DomView, root: NodePtr) -> Seq<char> {
    match parent_of(d[root as int]) {
        Some(host) => match d[host as int] {
            NodeView::Element(el) => el.tag_name,
            _ => Seq::empty(),
        },
        None => Seq::empty(),
    }
}

/// The operation that creates the container of a shadow root.
pub open spec fn shadow_op(d: DomView, root: NodePtr, ns: Seq<char>, mode: Seq<char>) -> RenderOpView {
    RenderOpView::CreateElement {
        name: element_name("div"@, ns),
        attrs: seq![
            RenderAttributeView {
                name: attribute_name("data-aurora-shadow-root"@),
                value: "true"@,
            },
            RenderAttributeView { name: attribute_name("data-aurora-shadow-mode"@), value: mode },
            RenderAttributeView {
                name: attribute_name("data-aurora-shadow-host"@),
                value: host_tag(d, root),
            },
        ],
    }
}

/// The operation that creates the node of `n`, which is no shadow root.
pub open spec fn node_op(n: NodeView, ns: Seq<char>) -> RenderOpView {
    match n {
        NodeView::Text { content, parent } => RenderOpView::CreateText(content),
        NodeView::Comment { content, parent } => RenderOpView::CreateComment,
        NodeView::Document { children, mode } => RenderOpView::CreateElement {
            name: element_name("div"@, ns),
            attrs: Seq::empty(),
        },
        NodeView::Element(el) => RenderOpView::CreateElement {
            name: element_name(el.tag_name, ns),
            attrs: qualified(in_order(el.attributes)),
        },
    }
}

/// The namespace that the children of `n` start from.
pub open spec fn inner_namespace(n: NodeView, ns: Seq<char>) -> Seq<char> {
    match n {
        NodeView::Element(el) => children_namespace(
            el.tag_name,
            element_name(el.tag_name, ns).ns,
        ),
        _ => ns,
    }
}

/// The draft that renders the shadow root `root` with everything below it.
pub open spec fn planned_shadow(
    to_blitz: Map<usize, usize>,
    w: DraftView,
    root: NodePtr,
    ns: Seq<char>,
    mode: Seq<char>,
    fuel: nat,
) -> Drafted
    decreases fuel, 1nat, 0nat,
{
    match known(to_blitz, w, root) {
        Some(node) => Drafted { draft: w, node },
        None => {
            let node = RenderRef::New(w.created.len() as usize);
            let e = opened(w, root, shadow_op(w.dom, root, ns, mode));
            Drafted {
                draft: planned_children(
                    to_blitz,
                    DraftView { dom: distributed(w.dom, root), ..e },
                    node,
                    rendered_children(w.dom, root),
                    ns,
                    fuel,
                ),
                node,
            }
        },
    }
}

/// The draft that renders `n` with everything below it.
pub open spec fn planned(
    to_blitz: Map<usize, usize>,
    w: DraftView,
    n: NodePtr,
    ns: Seq<char>,
    fuel: nat,
) -> Drafted
    decreases fuel, 2nat, 0nat,
{
    match known(to_blitz, w, n) {
        Some(node) => Drafted { draft: w, node },
        None => if is_root_at(w.dom, n) {
            planned_shadow(to_blitz, w, n, ns, "open"@, fuel)
        } else {
            let node = RenderRef::New(w.created.len() as usize);
            let e = opened(w, n, node_op(w.dom[n as int], ns));
            if w.dom[n as int] is Text || w.dom[n as int] is Comment {
                Drafted { draft: e, node }
            } else {
                Drafted {
                    draft: planned_children(
                        to_blitz,
                        DraftView { dom: distributed(w.dom, n), ..e },
                        node,
                        rendered_children(w.dom, n),
                        inner_namespace(w.dom[n as int], ns),
                        fuel,
                    ),
                    node,
                }
            }
        },
    }
}

/// The draft that renders every node of a list and appends it to `parent`.
pub open spec fn planned_children(
    to_blitz: Map<usize, usize>,
    w: DraftView,
    parent: RenderRef,
    kids: Seq<NodePtr>,
    ns: Seq<char>,
    fuel: nat,
) -> DraftView
    decreases fuel, 0nat, kids.len(),
{
    if kids.len() == 0 || fuel == 0 {
        w
    } else {
        let before = planned_children(to_blitz, w, parent, kids.drop_last(), ns, fuel);
        let child = planned(to_blitz, before, kids.last(), ns, (fuel - 1) as nat);
        DraftView {
            ops: child.draft.ops.push(
                RenderOpView::AppendChildren { parent, children: seq![child.node] },
            ),
            ..child.draft
        }
    }
}

/// Whether the walk that [`planned_shadow`] describes ends.
pub open spec fn plan_shadow_ends(
    to_blitz: Map<usize, usize>,
    w: DraftView,
    root: NodePtr,
    ns: Seq<char>,
    mode: Seq<char>,
    fuel: nat,
) -> bool
    decreases fuel, 1nat, 0nat,
{
    let e = opened(w, root, shadow_op(w.dom, root, ns, mode));
    &&& root < w.dom.len()
    &&& known(to_blitz, w, root) is None ==> {
        &&& fuel > 0
        &&& composable(w.dom, root)
        &&& plan_children_end(
            to_blitz,
            DraftView { dom: distributed(w.dom, root), ..e },
            RenderRef::New(w.created.len() as usize),
            rendered_children(w.dom, root),
            ns,
            fuel,
        )
    }
}

/// Whether the walk that [`planned`] describes ends.
pub open spec fn plan_ends(
    to_blitz: Map<usize, usize>,
    w: DraftView,
    n: NodePtr,
    ns: Seq<char>,
    fuel: nat,
) -> bool
    decreases fuel, 2nat, 0nat,
{
    let e = opened(w, n, node_op(w.dom[n as int], ns));
    &&& n < w.dom.len()
    &&& known(to_blitz, w, n) is None ==> if is_root_at(w.dom, n) {
        plan_shadow_ends(to_blitz, w, n, ns, "open"@, fuel)
    } else {
        w.dom[n as int] is Text || w.dom[n as int] is Comment || {
            &&& fuel > 0
            &&& composable(w.dom, n)
            &&& plan_children_end(
                to_blitz,
                DraftView { dom: distributed(w.dom, n), ..e },
                RenderRef::New(w.created.len() as usize),
                rendered_children(w.dom, n),
                inner_namespace(w.dom[n as int], ns),
                fuel,
            )
        }
    }
}

/// Whether the walk that [`planned_children`] describes ends.
pub open spec fn plan_children_end(
    to_blitz: Map<usize, usize>,
    w: DraftView,
    parent: RenderRef,
    kids: Seq<NodePtr>,
    ns: Seq<char>,
    fuel: nat,
) -> bool
    decreases fuel, 0nat, kids.len(),
{
    kids.len() == 0 || {
        &&& fuel > 0
        &&& plan_children_end(to_blitz, w, parent, kids.drop_last(), ns, fuel)
        &&& plan_ends(
            to_blitz,
            planned_children(to_blitz, w, parent, kids.drop_last(), ns, fuel),
            kids.last(),
            ns,
            (fuel - 1) as nat,
        )
    }
}

impl Draft {
    /// A draft without operations.
    pub fn new() -> (res: Self)
        ensures
            forall|d: DomView| draft_view(d, res) == blank(d),
    {
        let res = Draft { ops: Vec::new(), created: Vec::new(), pending: BTreeMap::new() };
        assert(op_views(res.ops@) =~= Seq::<RenderOpView>::empty());
        res
    }

    /// Adds an operation that creates no node.
    pub fn push(&mut self, op: RenderOp)
        ensures
            forall|d: DomView|
                #![trigger draft_view(d, *final(self))]
                draft_view(d, *final(self)) == (DraftView {
                    ops: op_views(old(self).ops@).push(op@),
                    ..draft_view(d, *old(self))
                }),
    {
        self.ops.push(op);
        assert(op_views(self.ops@) =~= op_views(old(self).ops@).push(op@));
    }

    /// Adds the operation that creates the node of `n`.
    fn open(&mut self, n: NodePtr, op: RenderOp) -> (res: RenderRef)
        ensures
            res == RenderRef::New(old(self).created@.len() as usize),
            forall|d: DomView|
                #![trigger draft_view(d, *final(self))]
                draft_view(d, *final(self)) == opened(draft_view(d, *old(self)), n, op@),
    {
        let number: usize = self.created.len();
        self.ops.push(op);
        self.created.push(n);
        let _ = self.pending.insert(n, number);
        assert(op_views(self.ops@) =~= op_views(old(self).ops@).push(op@));
        RenderRef::New(number)
    }

    /// The rendered node of `n`, if it has one or will have one.
    fn find(&self, legacy_to_blitz: &BTreeMap<usize, usize>, n: NodePtr) -> (res: Option<RenderRef>)
        ensures
            forall|d: DomView|
                res == #[trigger] known(legacy_to_blitz@, draft_view(d, *self), n),
    {
        match legacy_to_blitz.get(&n) {
            Some(id) => Some(RenderRef::Existing(*id)),
            None => match self.pending.get(&n) {
                Some(number) => Some(RenderRef::New(*number)),
                None => None,
            },
        }
    }
}

pub fn qualified_attributes(attributes: &Attributes) -> (res: Vec<RenderAttribute>)
    ensures
        attribute_views(res@) == qualified(in_order(attributes@)),
{
    let entries = attributes.entries();
    let ghost pairs = in_order(attributes@);
    let mut res: Vec<RenderAttribute> = Vec::new();
    let mut i: usize = 0;
    proof {
        assert(attribute_views(res@) =~= qualified(pairs.take(0)));
    }
    while i < entries.len()
        invariant
            i <= entries.len(),
            entries@.map_values(|e: (String, String)| (e.0@, e.1@)) == pairs,
            attribute_views(res@) == qualified(pairs.take(i as int)),
        decreases entries.len() - i,
    {
        let ghost before = res@;
        res.push(
            RenderAttribute {
                name: attr_qual_name_from_str(entries[i].0.as_str()),
                value: entries[i].1.clone(),
            },
        );
        proof {
            let mapped = entries@.map_values(|e: (String, String)| (e.0@, e.1@));
            assert(mapped[i as int] == pairs[i as int]);
            assert(attribute_views(res@) =~= attribute_views(before).push(res@.last()@));
            assert(qualified(pairs.take(i + 1)) =~= qualified(pairs.take(i as int)).push(
                RenderAttributeView {
                    name: attribute_name(pairs[i as int].0),
                    value: pairs[i as int].1,
                },
            ));
        }
        i = i + 1;
    }
    assert(pairs.take(i as int) =~= pairs);
    res
}

fn shadow_attributes(dom: &Dom, root: NodePtr, mode: &str) -> (res: Vec<RenderAttribute>)
    requires
        dom.wf(),
        root < dom@.len(),
    ensures
        attribute_views(res@) == seq![
            RenderAttributeView {
                name: attribute_name("data-aurora-shadow-root"@),
                value: "true"@,
            },
            RenderAttributeView { name: attribute_name("data-aurora-shadow-mode"@), value: mode@ },
            RenderAttributeView {
                name: attribute_name("data-aurora-shadow-host"@),
                value: host_tag(dom@, root),
            },
        ],
{
    proof {
        assert(crate::dom::node::node_ok(dom@[root as int], dom@.len()));
    }
    let tag: String = match parent_ptr(dom, root) {
        Some(host) => match dom.node(host) {
            Node::Element(el) => el.tag_name.clone(),
            _ => String::new(),
        },
        None => String::new(),
    };
    assert(tag@ =~= host_tag(dom@, root));
    let mut res: Vec<RenderAttribute> = Vec::new();
    res.push(
        RenderAttribute {
            name: attr_qual_name_from_str("data-aurora-shadow-root"),
            value: "true".to_owned(),
        },
    );
    res.push(
        RenderAttribute {
            name: attr_qual_name_from_str("data-aurora-shadow-mode"),
            value: mode.to_owned(),
        },
    );
    res.push(
        RenderAttribute { name: attr_qual_name_from_str("data-aurora-shadow-host"), value: tag },
    );
    assert(attribute_views(res@) =~= seq![
        RenderAttributeView { name: attribute_name("data-aurora-shadow-root"@), value: "true"@ },
        RenderAttributeView { name: attribute_name("data-aurora-shadow-mode"@), value: mode@ },
        RenderAttributeView {
            name: attribute_name("data-aurora-shadow-host"@),
            value: host_tag(dom@, root),
        },
    ]);
    res
}

fn draft_children(
    dom: &mut Dom,
    draft: &mut Draft,
    legacy_to_blitz: &BTreeMap<usize, usize>,
    parent: RenderRef,
    kids: &Vec<NodePtr>,
    ns: &str,
    Ghost(fuel): Ghost<nat>,
)
    requires
        old(dom).wf(),
        fuel > 0,
        plan_children_end(
            legacy_to_blitz@,
            draft_view(old(dom)@, *old(draft)),
            parent,
            kids@,
            ns@,
            fuel,
        ),
    ensures
        final(dom).wf(),
        draft_view(final(dom)@, *final(draft)) == planned_children(
            legacy_to_blitz@,
            draft_view(old(dom)@, *old(draft)),
            parent,
            kids@,
            ns@,
            fuel,
        ),
    decreases fuel, 0nat,
{
    let ghost base = draft_view(dom@, *draft);
    let mut i: usize = 0;
    while i < kids.len()
        invariant
            i <= kids.len(),
            dom.wf(),
            fuel > 0,
            plan_children_end(legacy_to_blitz@, base, parent, kids@, ns@, fuel),
            draft_view(dom@, *draft) == planned_children(
                legacy_to_blitz@,
                base,
                parent,
                kids@.take(i as int),
                ns@,
                fuel,
            ),
        decreases kids.len() - i,
    {
        proof {
            lemma_plan_prefix(legacy_to_blitz@, base, parent, kids@, ns@, fuel, i + 1);
            assert(kids@.take(i + 1).drop_last() == kids@.take(i as int));
            assert(kids@.take(i + 1).last() == kids@[i as int]);
        }
        let child = draft_node(
            dom,
            draft,
            legacy_to_blitz,
            kids[i],
            ns,
            Ghost((fuel - 1) as nat),
        );
        let mut children: Vec<RenderRef> = Vec::new();
        children.push(child);
        assert(children@ =~= seq![child]);
        draft.push(RenderOp::AppendChildren { parent, children });
        i = i + 1;
    }
    assert(kids@.take(i as int) == kids@);
}

proof fn lemma_plan_prefix(
    to_blitz: Map<usize, usize>,
    w: DraftView,
    parent: RenderRef,
    kids: Seq<NodePtr>,
    ns: Seq<char>,
    fuel: nat,
    k: int,
)
    requires
        plan_children_end(to_blitz, w, parent, kids, ns, fuel),
        0 <= k <= kids.len(),
    ensures
        plan_children_end(to_blitz, w, parent, kids.take(k), ns, fuel),
    decreases kids.len(),
{
    if k == kids.len() {
        assert(kids.take(k) == kids);
    } else {
        lemma_plan_prefix(to_blitz, w, parent, kids.drop_last(), ns, fuel, k);
        assert(kids.drop_last().take(k) == kids.take(k));
    }
}

fn draft_shadow_root(
    dom: &mut Dom,
    draft: &mut Draft,
    legacy_to_blitz: &BTreeMap<usize, usize>,
    root: NodePtr,
    ns: &str,
    mode: &str,
    Ghost(fuel): Ghost<nat>,
) -> (res: RenderRef)
    requires
        old(dom).wf(),
        plan_shadow_ends(
            legacy_to_blitz@,
            draft_view(old(dom)@, *old(draft)),
            root,
            ns@,
            mode@,
            fuel,
        ),
    ensures
        final(dom).wf(),
        (Drafted { draft: draft_view(final(dom)@, *final(draft)), node: res }) == planned_shadow(
            legacy_to_blitz@,
            draft_view(old(dom)@, *old(draft)),
            root,
            ns@,
            mode@,
            fuel,
        ),
    decreases fuel, 1nat,
{
    if let Some(node) = draft.find(legacy_to_blitz, root) {
        assert(known(legacy_to_blitz@, draft_view(dom@, *draft), root) == Some(node));
        return node;
    }
    assert(known(legacy_to_blitz@, draft_view(dom@, *draft), root) is None);
    let ghost w = draft_view(dom@, *draft);
    let attrs = shadow_attributes(dom, root, mode);
    let name = element_qual_name_from_str("div", ns);
    let node = draft.open(root, RenderOp::CreateElement { name, attrs });
    assert(draft_view(dom@, *draft) == opened(w, root, shadow_op(w.dom, root, ns@, mode@)));
    let kids = child_nodes_for_blitz(dom, root);
    assert(draft_view(dom@, *draft) =~= DraftView {
        dom: distributed(w.dom, root),
        ..opened(w, root, shadow_op(w.dom, root, ns@, mode@))
    });
    draft_children(dom, draft, legacy_to_blitz, node, &kids, ns, Ghost(fuel));
    node
}

fn draft_node(
    dom: &mut Dom,
    draft: &mut Draft,
    legacy_to_blitz: &BTreeMap<usize, usize>,
    n: NodePtr,
    ns: &str,
    Ghost(fuel): Ghost<nat>,
) -> (res: RenderRef)
    requires
        old(dom).wf(),
        plan_ends(legacy_to_blitz@, draft_view(old(dom)@, *old(draft)), n, ns@, fuel),
    ensures
        final(dom).wf(),
        (Drafted { draft: draft_view(final(dom)@, *final(draft)), node: res }) == planned(
            legacy_to_blitz@,
            draft_view(old(dom)@, *old(draft)),
            n,
            ns@,
            fuel,
        ),
    decreases fuel, 2nat,
{
    if let Some(node) = draft.find(legacy_to_blitz, n) {
        assert(known(legacy_to_blitz@, draft_view(dom@, *draft), n) == Some(node));
        return node;
    }
    assert(known(legacy_to_blitz@, draft_view(dom@, *draft), n) is None);
    let ghost w = draft_view(dom@, *draft);
    if SyntheticShadowTreeBackend.is_shadow_root(dom, n) {
        return draft_shadow_root(dom, draft, legacy_to_blitz, n, ns, "open", Ghost(fuel));
    }
    let inner: String;
    let op: RenderOp;
    match dom.node(n) {
        Node::Text(text) => {
            return draft.open(n, RenderOp::CreateText(text.content.clone()));
        },
        Node::Comment(_) => {
            return draft.open(n, RenderOp::CreateComment);
        },
        Node::Document { .. } => {
            let attrs: Vec<RenderAttribute> = Vec::new();
            assert(attribute_views(attrs@) =~= Seq::<RenderAttributeView>::empty());
            op = RenderOp::CreateElement { name: element_qual_name_from_str("div", ns), attrs };
            inner = ns.to_owned();
        },
        Node::Element(el) => {
            let name = element_qual_name_from_str(el.tag_name.as_str(), ns);
            inner = namespace_for_children(el.tag_name.as_str(), name.ns.as_str());
            op = RenderOp::CreateElement { name, attrs: qualified_attributes(&el.attributes) };
        },
    }
    assert(op@ == node_op(w.dom[n as int], ns@));
    let node = draft.open(n, op);
    assert(draft_view(dom@, *draft) == opened(w, n, node_op(w.dom[n as int], ns@)));
    let kids = child_nodes_for_blitz(dom, n);
    assert(draft_view(dom@, *draft) =~= DraftView {
        dom: distributed(w.dom, n),
        ..opened(w, n, node_op(w.dom[n as int], ns@))
    });
    draft_children(dom, draft, legacy_to_blitz, node, &kids, inner.as_str(), Ghost(fuel));
    node
}

/// A draft and a list of nodes in it.
#[verifier::ext_equal]
pub struct DraftedList {
    pub draft: DraftView,
    pub nodes: Seq<RenderRef>,
}

/// The draft that renders every node of a list.
pub open spec fn planned_list(
    to_blitz: Map<usize, usize>,
    w: DraftView,
    kids: Seq<NodePtr>,
    ns: Seq<char>,
    fuel: nat,
) -> DraftedList
    decreases kids.len(),
{
    if kids.len() == 0 {
        DraftedList { draft: w, nodes: Seq::empty() }
    } else {
        let before = planned_list(to_blitz, w, kids.drop_last(), ns, fuel);
        let last = planned(to_blitz, before.draft, kids.last(), ns, fuel);
        DraftedList { draft: last.draft, nodes: before.nodes.push(last.node) }
    }
}

/// Whether the walk that [`planned_list`] describes ends.
pub open spec fn plan_list_ends(
    to_blitz: Map<usize, usize>,
    w: DraftView,
    kids: Seq<NodePtr>,
    ns: Seq<char>,
    fuel: nat,
) -> bool
    decreases kids.len(),
{
    kids.len() == 0 || {
        &&& plan_list_ends(to_blitz, w, kids.drop_last(), ns, fuel)
        &&& plan_ends(
            to_blitz,
            planned_list(to_blitz, w, kids.drop_last(), ns, fuel).draft,
            kids.last(),
            ns,
            fuel,
        )
    }
}

/// Whether a node stands for its children when it is inserted: a fragment that
/// is no shadow root.
pub open spec fn is_transparent(d: DomView, n: NodePtr) -> bool {
    is_fragment(d[n as int]) && !is_root_at(d, n)
}

/// The draft that renders what inserting `child` inserts: the node itself, or
/// the rendered children of a fragment.
pub open spec fn planned_child(
    to_blitz: Map<usize, usize>,
    w: DraftView,
    child: NodePtr,
    ns: Seq<char>,
    fuel: nat,
) -> DraftedList {
    if is_transparent(w.dom, child) {
        planned_list(
            to_blitz,
            DraftView { dom: distributed(w.dom, child), ..w },
            rendered_children(w.dom, child),
            ns,
            fuel,
        )
    } else {
        let one = planned(to_blitz, w, child, ns, fuel);
        DraftedList { draft: one.draft, nodes: seq![one.node] }
    }
}

/// Whether the walk that [`planned_child`] describes ends.
pub open spec fn plan_child_ends(
    to_blitz: Map<usize, usize>,
    w: DraftView,
    child: NodePtr,
    ns: Seq<char>,
    fuel: nat,
) -> bool {
    &&& child < w.dom.len()
    &&& if is_transparent(w.dom, child) {
        composable(w.dom, child) && plan_list_ends(
            to_blitz,
            DraftView { dom: distributed(w.dom, child), ..w },
            rendered_children(w.dom, child),
            ns,
            fuel,
        )
    } else {
        plan_ends(to_blitz, w, child, ns, fuel)
    }
}

/// Plans the node of `n` and everything below it, unless it is rendered.
pub fn create_dom_node(
    dom: &mut Dom,
    draft: &mut Draft,
    legacy_to_blitz: &BTreeMap<usize, usize>,
    n: NodePtr,
    parent_ns: &str,
) -> (res: RenderRef)
    requires
        old(dom).wf(),
        plan_ends(
            legacy_to_blitz@,
            draft_view(old(dom)@, *old(draft)),
            n,
            parent_ns@,
            old(dom)@.len(),
        ),
    ensures
        final(dom).wf(),
        (Drafted { draft: draft_view(final(dom)@, *final(draft)), node: res }) == planned(
            legacy_to_blitz@,
            draft_view(old(dom)@, *old(draft)),
            n,
            parent_ns@,
            old(dom)@.len(),
        ),
{
    draft_node(dom, draft, legacy_to_blitz, n, parent_ns, Ghost(dom@.len()))
}

/// Plans the container of the shadow root `root` and everything below it,
/// unless it is rendered.
pub fn create_shadow_root_node(
    dom: &mut Dom,
    draft: &mut Draft,
    legacy_to_blitz: &BTreeMap<usize, usize>,
    root: NodePtr,
    parent_ns: &str,
    mode: &str,
) -> (res: RenderRef)
    requires
        old(dom).wf(),
        plan_shadow_ends(
            legacy_to_blitz@,
            draft_view(old(dom)@, *old(draft)),
            root,
            parent_ns@,
            mode@,
            old(dom)@.len(),
        ),
    ensures
        final(dom).wf(),
        (Drafted { draft: draft_view(final(dom)@, *final(draft)), node: res }) == planned_shadow(
            legacy_to_blitz@,
            draft_view(old(dom)@, *old(draft)),
            root,
            parent_ns@,
            mode@,
            old(dom)@.len(),
        ),
{
    draft_shadow_root(dom, draft, legacy_to_blitz, root, parent_ns, mode, Ghost(dom@.len()))
}

/// Plans the rendered children of `node` below `parent`.
pub fn append_dom_children(
    dom: &mut Dom,
    draft: &mut Draft,
    legacy_to_blitz: &BTreeMap<usize, usize>,
    parent: RenderRef,
    node: NodePtr,
    parent_ns: &str,
)
    requires
        old(dom).wf(),
        composable(old(dom)@, node),
        plan_children_end(
            legacy_to_blitz@,
            draft_view(distributed(old(dom)@, node), *old(draft)),
            parent,
            rendered_children(old(dom)@, node),
            parent_ns@,
            old(dom)@.len(),
        ),
    ensures
        final(dom).wf(),
        draft_view(final(dom)@, *final(draft)) == planned_children(
            legacy_to_blitz@,
            draft_view(distributed(old(dom)@, node), *old(draft)),
            parent,
            rendered_children(old(dom)@, node),
            parent_ns@,
            old(dom)@.len(),
        ),
{
    let kids = child_nodes_for_blitz(dom, node);
    draft_children(dom, draft, legacy_to_blitz, parent, &kids, parent_ns, Ghost(dom@.len()));
}

fn draft_list(
    dom: &mut Dom,
    draft: &mut Draft,
    legacy_to_blitz: &BTreeMap<usize, usize>,
    kids: &Vec<NodePtr>,
    ns: &str,
    Ghost(fuel): Ghost<nat>,
) -> (res: Vec<RenderRef>)
    requires
        old(dom).wf(),
        plan_list_ends(
            legacy_to_blitz@,
            draft_view(old(dom)@, *old(draft)),
            kids@,
            ns@,
            fuel,
        ),
    ensures
        final(dom).wf(),
        (DraftedList { draft: draft_view(final(dom)@, *final(draft)), nodes: res@ })
            == planned_list(
            legacy_to_blitz@,
            draft_view(old(dom)@, *old(draft)),
            kids@,
            ns@,
            fuel,
        ),
{
    let ghost base = draft_view(dom@, *draft);
    let mut res: Vec<RenderRef> = Vec::new();
    let mut i: usize = 0;
    while i < kids.len()
        invariant
            i <= kids.len(),
            dom.wf(),
            plan_list_ends(legacy_to_blitz@, base, kids@, ns@, fuel),
            (DraftedList { draft: draft_view(dom@, *draft), nodes: res@ }) == planned_list(
                legacy_to_blitz@,
                base,
                kids@.take(i as int),
                ns@,
                fuel,
            ),
        decreases kids.len() - i,
    {
        proof {
            lemma_list_prefix(legacy_to_blitz@, base, kids@, ns@, fuel, i + 1);
            assert(kids@.take(i + 1).drop_last() == kids@.take(i as int));
            assert(kids@.take(i + 1).last() == kids@[i as int]);
        }
        let node = draft_node(dom, draft, legacy_to_blitz, kids[i], ns, Ghost(fuel));
        res.push(node);
        i = i + 1;
    }
    assert(kids@.take(i as int) == kids@);
    res
}

proof fn lemma_list_prefix(
    to_blitz: Map<usize, usize>,
    w: DraftView,
    kids: Seq<NodePtr>,
    ns: Seq<char>,
    fuel: nat,
    k: int,
)
    requires
        plan_list_ends(to_blitz, w, kids, ns, fuel),
        0 <= k <= kids.len(),
    ensures
        plan_list_ends(to_blitz, w, kids.take(k), ns, fuel),
    decreases kids.len(),
{
    if k == kids.len() {
        assert(kids.take(k) == kids);
    } else {
        lemma_list_prefix(to_blitz, w, kids.drop_last(), ns, fuel, k);
        assert(kids.drop_last().take(k) == kids.take(k));
    }
}

/// Plans what inserting `child` inserts.
pub fn blitz_ids_for_dom_child(
    dom: &mut Dom,
    draft: &mut Draft,
    legacy_to_blitz: &BTreeMap<usize, usize>,
    child: NodePtr,
    parent_ns: &str,
) -> (res: Vec<RenderRef>)
    requires
        old(dom).wf(),
        plan_child_ends(
            legacy_to_blitz@,
            draft_view(old(dom)@, *old(draft)),
            child,
            parent_ns@,
            old(dom)@.len(),
        ),
    ensures
        final(dom).wf(),
        (DraftedList { draft: draft_view(final(dom)@, *final(draft)), nodes: res@ })
            == planned_child(
            legacy_to_blitz@,
            draft_view(old(dom)@, *old(draft)),
            child,
            parent_ns@,
            old(dom)@.len(),
        ),
{
    let ghost fuel = dom@.len();
    let ghost base = draft_view(dom@, *draft);
    if is_document_fragment(dom, child) && !SyntheticShadowTreeBackend.is_shadow_root(dom, child) {
        let kids = child_nodes_for_blitz(dom, child);
        assert(draft_view(dom@, *draft) =~= DraftView {
            dom: distributed(base.dom, child),
            ..base
        });
        draft_list(dom, draft, legacy_to_blitz, &kids, parent_ns, Ghost(fuel))
    } else {
        let node = draft_node(dom, draft, legacy_to_blitz, child, parent_ns, Ghost(fuel));
        let mut res: Vec<RenderRef> = Vec::new();
        res.push(node);
        assert(res@ =~= seq![node]);
        res
    }
}

} // verus!
