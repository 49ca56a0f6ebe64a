//! Carrying changes of the document over to the renderer.
//!
//! Each change is planned first. The plan lists what the renderer has to do;
//! whoever runs it reports the ids of the nodes that were created and whether
//! it ran to its end, and [`BlitzDocument::finish_sync`] takes note of that.

use crate::blitz_document::document::{op_for_node, recorded_failure, BlitzDocument, BlitzState,
    MirrorMutationFailure, MirrorOp};
use crate::blitz_document::names::{attr_qual_name_from_str, attribute_name, same_name, HTML_NS,
    QualNameView};
use crate::blitz_document::plan::{blank, blitz_ids_for_dom_child, draft_view, op_views,
    plan_child_ends, planned_child, qualified, qualified_attributes, Draft, DraftedList, RenderOp,
    RenderOpView, RenderRef};
use crate::blitz_document::render::{attribute_views, element_of, node_at, RenderAttribute,
    RenderAttributeView, RenderTree, RenderView};
use crate::dom::attributes::in_order;
use crate::dom::node::{parent_of, parent_ptr, Dom, DomView, Node, NodePtr, NodeView};
use crate::dom::shadow::{is_root_at, ShadowTreeBackend, SyntheticShadowTreeBackend};
use crate::text::text_eq;
use std::collections::BTreeMap;
use vstd::prelude::*;

verus! {

broadcast use vstd::std_specs::btree::group_btree_axioms;

/// Which rendered node the record of a change names.
#[derive(Debug, Clone, Copy)]
pub enum Reported {
    /// A node that the renderer has.
    Id(usize),
    /// The rendered node of a node, as it is after the change.
    Node(NodePtr),
    /// The same, or else a node that the renderer had.
    NodeOr(NodePtr, usize),
}

/// A change that the renderer has to carry out.
#[derive(Debug)]
pub struct MirrorPlan {
    pub op: MirrorOp,
    pub ops: Vec<RenderOp>,
    /// The nodes that the operations create rendered nodes for, in order.
    pub created: Vec<NodePtr>,
    /// Whether there is anything to carry out.
    pub complete: bool,
    /// The subtree that is no longer rendered once the plan has run.
    pub forget: Option<NodePtr>,
    pub reported: Reported,
}

/// The view of [`MirrorPlan`].
#[verifier::ext_equal]
pub struct PlanView {
    pub op: MirrorOp,
    pub ops: Seq<RenderOpView>,
    pub created: Seq<NodePtr>,
    pub complete: bool,
    pub forget: Option<NodePtr>,
    pub reported: Reported,
}

impl View for MirrorPlan {
    type V = PlanView;

    open spec fn view(&self) -> PlanView {
        PlanView {
            op: self.op,
            ops: op_views(self.ops@),
            created: self.created@,
            complete: self.complete,
            forget: self.forget,
            reported: self.reported,
        }
    }
}

/// The namespace of a rendered element; HTML for anything else.
pub open spec fn namespace_at(t: RenderView, id: usize) -> Seq<char> {
    match node_at(t, id) {
        Some(node) => match element_of(node.data) {
            Some(el) => el.name.ns,
            None => HTML_NS@,
        },
        None => HTML_NS@,
    }
}

/// The children of a rendered node; none where there is no such node.
pub open spec fn child_ids_at(t: RenderView, id: usize) -> Seq<usize> {
    match node_at(t, id) {
        Some(node) => node.children,
        None => Seq::empty(),
    }
}

/// The attributes of a rendered node; none where it is no element.
pub open spec fn attributes_at(t: RenderView, id: usize) -> Seq<RenderAttributeView> {
    match node_at(t, id) {
        Some(node) => match element_of(node.data) {
            Some(el) => el.attrs,
            None => Seq::empty(),
        },
        None => Seq::empty(),
    }
}

pub fn node_namespace(tree: &RenderTree, node_id: usize) -> (res: String)
    ensures
        res@ == namespace_at(tree@, node_id),
{
    match tree.get_node(node_id) {
        Some(node) => match node.data.downcast_element() {
            Some(el) => el.name.ns.clone(),
            None => HTML_NS.to_owned(),
        },
        None => HTML_NS.to_owned(),
    }
}

/// The plan of a change that does one thing to one rendered node.
pub open spec fn single_plan(op: MirrorOp, what: RenderOpView, id: usize) -> PlanView {
    PlanView {
        op,
        ops: seq![what],
        created: Seq::empty(),
        complete: true,
        forget: None,
        reported: Reported::Id(id),
    }
}

fn plan_single(op: MirrorOp, what: RenderOp, id: usize) -> (res: MirrorPlan)
    ensures
        res@ == single_plan(op, what@, id),
{
    let mut ops: Vec<RenderOp> = Vec::new();
    ops.push(what);
    assert(op_views(ops@) =~= seq![what@]);
    let res = MirrorPlan {
        op,
        ops,
        created: Vec::new(),
        complete: true,
        forget: None,
        reported: Reported::Id(id),
    };
    assert(res@ =~= single_plan(op, what@, id));
    res
}

/// The operations of a draft, followed by `last` where there are nodes for it.
pub open spec fn closing(list: DraftedList, last: RenderOpView) -> Seq<RenderOpView> {
    if list.nodes.len() > 0 {
        list.draft.ops.push(last)
    } else {
        list.draft.ops
    }
}

/// Where planned nodes go.
pub enum Spot {
    End(usize),
    Before(usize),
    Instead(usize),
}

/// The operation that puts nodes to a spot.
pub open spec fn put_op(spot: Spot, nodes: Seq<RenderRef>) -> RenderOpView {
    match spot {
        Spot::End(parent) => RenderOpView::AppendChildren {
            parent: RenderRef::Existing(parent),
            children: nodes,
        },
        Spot::Before(anchor) => RenderOpView::InsertBefore { anchor, nodes },
        Spot::Instead(node) => RenderOpView::ReplaceWith { node, nodes },
    }
}

/// The plan that renders `child` and puts it to a spot.
pub open spec fn insertion_plan(
    d: DomView,
    to_blitz: Map<usize, usize>,
    child: NodePtr,
    ns: Seq<char>,
    spot: Spot,
    op: MirrorOp,
    forget: Option<NodePtr>,
    reported: Reported,
) -> PlanView {
    let list = planned_child(to_blitz, blank(d), child, ns, d.len());
    PlanView {
        op,
        ops: closing(list, put_op(spot, list.nodes)),
        created: list.draft.created,
        complete: list.nodes.len() > 0,
        forget,
        reported,
    }
}

/// The nodes after [`insertion_plan`] has been made.
pub open spec fn insertion_dom(
    d: DomView,
    to_blitz: Map<usize, usize>,
    child: NodePtr,
    ns: Seq<char>,
) -> DomView {
    planned_child(to_blitz, blank(d), child, ns, d.len()).draft.dom
}

fn plan_insertion(
    dom: &mut Dom,
    legacy_to_blitz: &BTreeMap<usize, usize>,
    child: NodePtr,
    ns: &str,
    spot: Spot,
    op: MirrorOp,
    forget: Option<NodePtr>,
    reported: Reported,
) -> (res: MirrorPlan)
    requires
        old(dom).wf(),
        plan_child_ends(legacy_to_blitz@, blank(old(dom)@), child, ns@, old(dom)@.len()),
    ensures
        final(dom).wf(),
        final(dom)@ == insertion_dom(old(dom)@, legacy_to_blitz@, child, ns@),
        res@ == insertion_plan(
            old(dom)@,
            legacy_to_blitz@,
            child,
            ns@,
            spot,
            op,
            forget,
            reported,
        ),
{
    let mut draft = Draft::new();
    assert(draft_view(dom@, draft) == blank(dom@));
    let nodes = blitz_ids_for_dom_child(dom, &mut draft, legacy_to_blitz, child, ns);
    let complete = nodes.len() > 0;
    let ghost list = DraftedList { draft: draft_view(dom@, draft), nodes: nodes@ };
    if complete {
        let last = match spot {
            Spot::End(parent) => RenderOp::AppendChildren {
                parent: RenderRef::Existing(parent),
                children: nodes,
            },
            Spot::Before(anchor) => RenderOp::InsertBefore { anchor, nodes },
            Spot::Instead(node) => RenderOp::ReplaceWith { node, nodes },
        };
        assert(last@ == put_op(spot, list.nodes));
        draft.push(last);
        assert(draft_view(dom@, draft).ops == closing(list, put_op(spot, list.nodes)));
    }
    let res = MirrorPlan {
        op,
        ops: draft.ops,
        created: draft.created,
        complete,
        forget,
        reported,
    };
    assert(res@ =~= insertion_plan(
        old(dom)@,
        legacy_to_blitz@,
        child,
        ns@,
        spot,
        op,
        forget,
        reported,
    ));
    res
}

/// The subject of an insertion.
pub open spec fn insert_op(op_name: &'static str, d: DomView, parent: NodePtr, child: NodePtr) -> MirrorOp {
    MirrorOp {
        op_name,
        legacy_node: Some(child),
        parent: Some(parent),
        child: Some(child),
        shadow_root: is_root_at(d, child),
    }
}

/// The subject of the removal of `child`.
pub open spec fn remove_op(d: DomView, child: NodePtr) -> MirrorOp {
    MirrorOp {
        op_name: "sync_remove_child",
        legacy_node: Some(child),
        parent: parent_of(d[child as int]),
        child: Some(child),
        shadow_root: is_root_at(d, child),
    }
}

/// The subject of the replacement of `old_child`.
pub open spec fn replace_op(d: DomView, parent: NodePtr, new_child: NodePtr, old_child: NodePtr) -> MirrorOp {
    MirrorOp {
        op_name: "sync_replace_child",
        legacy_node: Some(new_child),
        parent: Some(parent),
        child: Some(new_child),
        shadow_root: is_root_at(d, new_child) || is_root_at(d, old_child),
    }
}

/// The namespace of the rendered node of `parent`; HTML where it has none.
pub open spec fn parent_namespace(to_blitz: Map<usize, usize>, t: RenderView, parent: NodePtr) -> Seq<char> {
    if to_blitz.contains_key(parent) {
        namespace_at(t, to_blitz[parent])
    } else {
        HTML_NS@
    }
}

/// Whether a change of an unrendered node was refused: it is recorded as a
/// missing mapping, and nothing else changes.
pub open spec fn refused(
    s: BlitzState,
    e: BlitzState,
    op: MirrorOp,
) -> bool {
    e == recorded_failure(s, op, MirrorMutationFailure::MissingMapping)
}

impl BlitzDocument {
    /// Plans that `child` is appended to `parent`.
    pub fn sync_append_child(
        &mut self,
        dom: &mut Dom,
        tree: &RenderTree,
        parent: NodePtr,
        child: NodePtr,
    ) -> (res: Option<MirrorPlan>)
        requires
            old(dom).wf(),
            parent < old(dom)@.len(),
            child < old(dom)@.len(),
            old(self)@.next_mirror_op_id < u64::MAX,
            old(self)@.to_blitz.contains_key(parent) ==> plan_child_ends(
                old(self)@.to_blitz,
                blank(old(dom)@),
                child,
                namespace_at(tree@, old(self)@.to_blitz[parent]),
                old(dom)@.len(),
            ),
        ensures
            final(dom).wf(),
            match res {
                Some(plan) => {
                    let ns = namespace_at(tree@, old(self)@.to_blitz[parent]);
                    &&& old(self)@.to_blitz.contains_key(parent)
                    &&& final(self)@ == old(self)@
                    &&& final(dom)@ == insertion_dom(old(dom)@, old(self)@.to_blitz, child, ns)
                    &&& plan@ == insertion_plan(
                        old(dom)@,
                        old(self)@.to_blitz,
                        child,
                        ns,
                        Spot::End(old(self)@.to_blitz[parent]),
                        insert_op("sync_append_child", old(dom)@, parent, child),
                        None,
                        Reported::Node(child),
                    )
                },
                None => {
                    &&& !old(self)@.to_blitz.contains_key(parent)
                    &&& refused(
                        old(self)@,
                        final(self)@,
                        (MirrorOp {
                            legacy_node: Some(parent),
                            ..insert_op("sync_append_child", old(dom)@, parent, child)
                        }),
                    )
                    &&& final(dom)@ == old(dom)@
                },
            },
    {
        let op = MirrorOp {
            op_name: "sync_append_child",
            legacy_node: Some(child),
            parent: Some(parent),
            child: Some(child),
            shadow_root: SyntheticShadowTreeBackend.is_shadow_root(dom, child),
        };
        let parent_id: usize = match self.blitz_node_id_for_dom(parent) {
            Some(id) => id,
            None => {
                self.record_mirror_failure(
                    &MirrorOp { legacy_node: Some(parent), ..op },
                    MirrorMutationFailure::MissingMapping,
                );
                return None;
            },
        };
        let ns = node_namespace(tree, parent_id);
        Some(
            plan_insertion(
                dom,
                &self.legacy_to_blitz,
                child,
                ns.as_str(),
                Spot::End(parent_id),
                op,
                None,
                Reported::Node(child),
            ),
        )
    }

    /// Plans that `new_child` is inserted below `parent`, before `ref_child`
    /// where that is given and rendered, else at the end.
    pub fn sync_insert_before(
        &mut self,
        dom: &mut Dom,
        tree: &RenderTree,
        parent: NodePtr,
        new_child: NodePtr,
        ref_child: Option<NodePtr>,
    ) -> (res: Option<MirrorPlan>)
        requires
            old(dom).wf(),
            parent < old(dom)@.len(),
            new_child < old(dom)@.len(),
            old(self)@.next_mirror_op_id < u64::MAX,
            old(self)@.to_blitz.contains_key(parent) ==> plan_child_ends(
                old(self)@.to_blitz,
                blank(old(dom)@),
                new_child,
                namespace_at(tree@, old(self)@.to_blitz[parent]),
                old(dom)@.len(),
            ),
        ensures
            final(dom).wf(),
            match res {
                Some(plan) => {
                    let ns = namespace_at(tree@, old(self)@.to_blitz[parent]);
                    &&& old(self)@.to_blitz.contains_key(parent)
                    &&& final(self)@ == old(self)@
                    &&& final(dom)@ == insertion_dom(old(dom)@, old(self)@.to_blitz, new_child, ns)
                    &&& plan@ == insertion_plan(
                        old(dom)@,
                        old(self)@.to_blitz,
                        new_child,
                        ns,
                        insertion_spot(old(self)@.to_blitz, parent, ref_child),
                        insert_op("sync_insert_before", old(dom)@, parent, new_child),
                        None,
                        Reported::Node(new_child),
                    )
                },
                None => {
                    &&& !old(self)@.to_blitz.contains_key(parent)
                    &&& refused(
                        old(self)@,
                        final(self)@,
                        (MirrorOp {
                            legacy_node: Some(parent),
                            ..insert_op("sync_insert_before", old(dom)@, parent, new_child)
                        }),
                    )
                    &&& final(dom)@ == old(dom)@
                },
            },
    {
        let op = MirrorOp {
            op_name: "sync_insert_before",
            legacy_node: Some(new_child),
            parent: Some(parent),
            child: Some(new_child),
            shadow_root: SyntheticShadowTreeBackend.is_shadow_root(dom, new_child),
        };
        let parent_id: usize = match self.blitz_node_id_for_dom(parent) {
            Some(id) => id,
            None => {
                self.record_mirror_failure(
                    &MirrorOp { legacy_node: Some(parent), ..op },
                    MirrorMutationFailure::MissingMapping,
                );
                return None;
            },
        };
        let ns = node_namespace(tree, parent_id);
        let spot = match ref_child {
            Some(node) => match self.blitz_node_id_for_dom(node) {
                Some(anchor) => Spot::Before(anchor),
                None => Spot::End(parent_id),
            },
            None => Spot::End(parent_id),
        };
        Some(
            plan_insertion(
                dom,
                &self.legacy_to_blitz,
                new_child,
                ns.as_str(),
                spot,
                op,
                None,
                Reported::Node(new_child),
            ),
        )
    }

    /// Plans that `child` is removed.
    pub fn sync_remove_child(&mut self, dom: &Dom, child: NodePtr) -> (res: Option<MirrorPlan>)
        requires
            dom.wf(),
            child < dom@.len(),
            old(self)@.next_mirror_op_id < u64::MAX,
        ensures
            match res {
                Some(plan) => {
                    &&& old(self)@.to_blitz.contains_key(child)
                    &&& final(self)@ == old(self)@
                    &&& plan@ == (PlanView {
                        forget: Some(child),
                        ..single_plan(
                            remove_op(dom@, child),
                            RenderOpView::RemoveNode(old(self)@.to_blitz[child]),
                            old(self)@.to_blitz[child],
                        )
                    })
                },
                None => !old(self)@.to_blitz.contains_key(child) && refused(
                    old(self)@,
                    final(self)@,
                    remove_op(dom@, child),
                ),
            },
    {
        let op = MirrorOp {
            op_name: "sync_remove_child",
            legacy_node: Some(child),
            parent: parent_ptr(dom, child),
            child: Some(child),
            shadow_root: SyntheticShadowTreeBackend.is_shadow_root(dom, child),
        };
        match self.blitz_node_id_for_dom(child) {
            Some(id) => {
                let mut plan = plan_single(op, RenderOp::RemoveNode(id), id);
                plan.forget = Some(child);
                Some(plan)
            },
            None => {
                self.record_mirror_failure(&op, MirrorMutationFailure::MissingMapping);
                None
            },
        }
    }

    /// Plans that `new_child` takes the place of `old_child`.
    pub fn sync_replace_child(
        &mut self,
        dom: &mut Dom,
        tree: &RenderTree,
        parent: NodePtr,
        new_child: NodePtr,
        old_child: NodePtr,
    ) -> (res: Option<MirrorPlan>)
        requires
            old(dom).wf(),
            new_child < old(dom)@.len(),
            old_child < old(dom)@.len(),
            old(self)@.next_mirror_op_id < u64::MAX,
            old(self)@.to_blitz.contains_key(old_child) ==> plan_child_ends(
                old(self)@.to_blitz,
                blank(old(dom)@),
                new_child,
                parent_namespace(old(self)@.to_blitz, tree@, parent),
                old(dom)@.len(),
            ),
        ensures
            final(dom).wf(),
            match res {
                Some(plan) => {
                    let ns = parent_namespace(old(self)@.to_blitz, tree@, parent);
                    let old_id = old(self)@.to_blitz[old_child];
                    &&& old(self)@.to_blitz.contains_key(old_child)
                    &&& final(self)@ == old(self)@
                    &&& final(dom)@ == insertion_dom(old(dom)@, old(self)@.to_blitz, new_child, ns)
                    &&& plan@ == insertion_plan(
                        old(dom)@,
                        old(self)@.to_blitz,
                        new_child,
                        ns,
                        Spot::Instead(old_id),
                        replace_op(old(dom)@, parent, new_child, old_child),
                        Some(old_child),
                        Reported::NodeOr(new_child, old_id),
                    )
                },
                None => {
                    &&& !old(self)@.to_blitz.contains_key(old_child)
                    &&& refused(
                        old(self)@,
                        final(self)@,
                        (MirrorOp {
                            legacy_node: Some(old_child),
                            ..replace_op(old(dom)@, parent, new_child, old_child)
                        }),
                    )
                    &&& final(dom)@ == old(dom)@
                },
            },
    {
        let op = MirrorOp {
            op_name: "sync_replace_child",
            legacy_node: Some(new_child),
            parent: Some(parent),
            child: Some(new_child),
            shadow_root: SyntheticShadowTreeBackend.is_shadow_root(dom, new_child)
                || SyntheticShadowTreeBackend.is_shadow_root(dom, old_child),
        };
        let old_id: usize = match self.blitz_node_id_for_dom(old_child) {
            Some(id) => id,
            None => {
                self.record_mirror_failure(
                    &MirrorOp { legacy_node: Some(old_child), ..op },
                    MirrorMutationFailure::MissingMapping,
                );
                return None;
            },
        };
        let ns = match self.blitz_node_id_for_dom(parent) {
            Some(id) => node_namespace(tree, id),
            None => HTML_NS.to_owned(),
        };
        Some(
            plan_insertion(
                dom,
                &self.legacy_to_blitz,
                new_child,
                ns.as_str(),
                Spot::Instead(old_id),
                op,
                Some(old_child),
                Reported::NodeOr(new_child, old_id),
            ),
        )
    }

    /// Plans that an attribute is set.
    pub fn sync_set_attribute(&mut self, dom: &Dom, node: NodePtr, name: &str, value: &str) -> (res:
        Option<MirrorPlan>)
        requires
            dom.wf(),
            node < dom@.len(),
            old(self)@.next_mirror_op_id < u64::MAX,
        ensures
            match res {
                Some(plan) => {
                    &&& old(self)@.to_blitz.contains_key(node)
                    &&& final(self)@ == old(self)@
                    &&& plan@ == single_plan(
                        op_for_node("sync_set_attribute", dom@, node),
                        RenderOpView::SetAttribute {
                            node: old(self)@.to_blitz[node],
                            name: attribute_name(name@),
                            value: value@,
                        },
                        old(self)@.to_blitz[node],
                    )
                },
                None => !old(self)@.to_blitz.contains_key(node) && refused(
                    old(self)@,
                    final(self)@,
                    op_for_node("sync_set_attribute", dom@, node),
                ),
            },
    {
        let op = MirrorOp::for_node("sync_set_attribute", dom, node);
        match self.blitz_node_id_for_dom(node) {
            Some(id) => Some(
                plan_single(
                    op,
                    RenderOp::SetAttribute {
                        node: id,
                        name: attr_qual_name_from_str(name),
                        value: value.to_owned(),
                    },
                    id,
                ),
            ),
            None => {
                self.record_mirror_failure(&op, MirrorMutationFailure::MissingMapping);
                None
            },
        }
    }

    /// Plans that an attribute is removed.
    pub fn sync_remove_attribute(&mut self, dom: &Dom, node: NodePtr, name: &str) -> (res: Option<
        MirrorPlan,
    >)
        requires
            dom.wf(),
            node < dom@.len(),
            old(self)@.next_mirror_op_id < u64::MAX,
        ensures
            match res {
                Some(plan) => {
                    &&& old(self)@.to_blitz.contains_key(node)
                    &&& final(self)@ == old(self)@
                    &&& plan@ == single_plan(
                        op_for_node("sync_remove_attribute", dom@, node),
                        RenderOpView::ClearAttribute {
                            node: old(self)@.to_blitz[node],
                            name: attribute_name(name@),
                        },
                        old(self)@.to_blitz[node],
                    )
                },
                None => !old(self)@.to_blitz.contains_key(node) && refused(
                    old(self)@,
                    final(self)@,
                    op_for_node("sync_remove_attribute", dom@, node),
                ),
            },
    {
        let op = MirrorOp::for_node("sync_remove_attribute", dom, node);
        match self.blitz_node_id_for_dom(node) {
            Some(id) => Some(
                plan_single(
                    op,
                    RenderOp::ClearAttribute { node: id, name: attr_qual_name_from_str(name) },
                    id,
                ),
            ),
            None => {
                self.record_mirror_failure(&op, MirrorMutationFailure::MissingMapping);
                None
            },
        }
    }

    /// Plans that the text of a node is replaced.
    pub fn sync_text_node(&mut self, dom: &Dom, node: NodePtr, text: &str) -> (res: Option<
        MirrorPlan,
    >)
        requires
            dom.wf(),
            node < dom@.len(),
            old(self)@.next_mirror_op_id < u64::MAX,
        ensures
            match res {
                Some(plan) => {
                    &&& old(self)@.to_blitz.contains_key(node)
                    &&& final(self)@ == old(self)@
                    &&& plan@ == single_plan(
                        op_for_node("sync_text_node", dom@, node),
                        RenderOpView::SetText { node: old(self)@.to_blitz[node], text: text@ },
                        old(self)@.to_blitz[node],
                    )
                },
                None => !old(self)@.to_blitz.contains_key(node) && refused(
                    old(self)@,
                    final(self)@,
                    op_for_node("sync_text_node", dom@, node),
                ),
            },
    {
        let op = MirrorOp::for_node("sync_text_node", dom, node);
        match self.blitz_node_id_for_dom(node) {
            Some(id) => Some(
                plan_single(op, RenderOp::SetText { node: id, text: text.to_owned() }, id),
            ),
            None => {
                self.record_mirror_failure(&op, MirrorMutationFailure::MissingMapping);
                None
            },
        }
    }
}

/// Where an insertion before `ref_child` goes.
pub open spec fn insertion_spot(
    to_blitz: Map<usize, usize>,
    parent: NodePtr,
    ref_child: Option<NodePtr>,
) -> Spot {
    match ref_child {
        Some(node) => if to_blitz.contains_key(node) {
            Spot::Before(to_blitz[node])
        } else {
            Spot::End(to_blitz[parent])
        },
        None => Spot::End(to_blitz[parent]),
    }
}

/// Whether some attribute of the list has the given name.
pub open spec fn has_name(list: Seq<RenderAttributeView>, name: QualNameView) -> bool {
    exists|i: int| 0 <= i < list.len() && #[trigger] list[i].name == name
}

/// Whether some attribute of the list has the given name and value.
pub open spec fn has_pair(list: Seq<RenderAttributeView>, a: RenderAttributeView) -> bool {
    exists|i: int| 0 <= i < list.len() && #[trigger] list[i] == a
}

/// Removals of the attributes that are no longer wanted.
pub open spec fn clear_ops(
    id: usize,
    existing: Seq<RenderAttributeView>,
    desired: Seq<RenderAttributeView>,
) -> Seq<RenderOpView>
    decreases existing.len(),
{
    if existing.len() == 0 {
        Seq::empty()
    } else {
        let before = clear_ops(id, existing.drop_last(), desired);
        if has_name(desired, existing.last().name) {
            before
        } else {
            before.push(RenderOpView::ClearAttribute { node: id, name: existing.last().name })
        }
    }
}

/// Settings of the attributes that are new or have changed.
pub open spec fn set_ops(
    id: usize,
    existing: Seq<RenderAttributeView>,
    desired: Seq<RenderAttributeView>,
) -> Seq<RenderOpView>
    decreases desired.len(),
{
    if desired.len() == 0 {
        Seq::empty()
    } else {
        let before = set_ops(id, existing, desired.drop_last());
        let last = desired.last();
        if has_pair(existing, last) {
            before
        } else {
            before.push(
                RenderOpView::SetAttribute { node: id, name: last.name, value: last.value },
            )
        }
    }
}

/// What turns the existing attributes into the desired ones, and leaves those
/// that are both as they are.
pub open spec fn diff_ops(
    id: usize,
    existing: Seq<RenderAttributeView>,
    desired: Seq<RenderAttributeView>,
) -> Seq<RenderOpView> {
    clear_ops(id, existing, desired) + set_ops(id, existing, desired)
}

/// The attributes that a node calls for.
pub open spec fn desired_attributes(n: NodeView) -> Seq<RenderAttributeView> {
    match n {
        NodeView::Element(el) => qualified(in_order(el.attributes)),
        _ => Seq::empty(),
    }
}

fn names_hold(list: &Vec<RenderAttribute>, a: &RenderAttribute) -> (res: bool)
    ensures
        res == has_name(attribute_views(list@), a@.name),
{
    let mut i: usize = 0;
    while i < list.len()
        invariant
            i <= list.len(),
            forall|j: int| 0 <= j < i ==> #[trigger] attribute_views(list@)[j].name != a@.name,
        decreases list.len() - i,
    {
        assert(attribute_views(list@)[i as int] == list@[i as int]@);
        if same_name(&list[i].name, &a.name) {
            assert(attribute_views(list@)[i as int].name == a@.name);
            return true;
        }
        i = i + 1;
    }
    false
}

fn pairs_hold(list: &Vec<RenderAttribute>, a: &RenderAttribute) -> (res: bool)
    ensures
        res == has_pair(attribute_views(list@), a@),
{
    let mut i: usize = 0;
    while i < list.len()
        invariant
            i <= list.len(),
            forall|j: int| 0 <= j < i ==> #[trigger] attribute_views(list@)[j] != a@,
        decreases list.len() - i,
    {
        assert(attribute_views(list@)[i as int] == list@[i as int]@);
        if same_name(&list[i].name, &a.name) && text_eq(list[i].value.as_str(), a.value.as_str()) {
            return true;
        }
        i = i + 1;
    }
    false
}

fn diff_attributes(id: usize, existing: &Vec<RenderAttribute>, desired: &Vec<RenderAttribute>) -> (res:
    Vec<RenderOp>)
    ensures
        op_views(res@) == diff_ops(id, attribute_views(existing@), attribute_views(desired@)),
{
    let ghost had = attribute_views(existing@);
    let ghost wanted = attribute_views(desired@);
    let mut ops: Vec<RenderOp> = Vec::new();
    let mut i: usize = 0;
    proof {
        assert(op_views(ops@) =~= clear_ops(id, had.take(0), wanted));
    }
    while i < existing.len()
        invariant
            i <= existing.len(),
            had == attribute_views(existing@),
            wanted == attribute_views(desired@),
            op_views(ops@) == clear_ops(id, had.take(i as int), wanted),
        decreases existing.len() - i,
    {
        let ghost before = ops@;
        proof {
            assert(had.take(i + 1).drop_last() == had.take(i as int));
            assert(had.take(i + 1).last() == existing@[i as int]@);
        }
        if !names_hold(desired, &existing[i]) {
            ops.push(RenderOp::ClearAttribute { node: id, name: existing[i].name.clone() });
            assert(op_views(ops@) =~= op_views(before).push(ops@.last()@));
        }
        i = i + 1;
    }
    proof {
        assert(had.take(i as int) == had);
        assert(op_views(ops@) =~= clear_ops(id, had, wanted) + set_ops(id, had, wanted.take(0)));
    }
    let mut k: usize = 0;
    while k < desired.len()
        invariant
            k <= desired.len(),
            had == attribute_views(existing@),
            wanted == attribute_views(desired@),
            op_views(ops@) == clear_ops(id, had, wanted) + set_ops(
                id,
                had,
                wanted.take(k as int),
            ),
        decreases desired.len() - k,
    {
        let ghost before = ops@;
        proof {
            assert(wanted.take(k + 1).drop_last() == wanted.take(k as int));
            assert(wanted.take(k + 1).last() == desired@[k as int]@);
        }
        if !pairs_hold(existing, &desired[k]) {
            ops.push(
                RenderOp::SetAttribute {
                    node: id,
                    name: desired[k].name.clone(),
                    value: desired[k].value.clone(),
                },
            );
            assert(op_views(ops@) =~= op_views(before).push(ops@.last()@));
        }
        assert(op_views(ops@) =~= clear_ops(id, had, wanted) + set_ops(
            id,
            had,
            wanted.take(k + 1),
        ));
        k = k + 1;
    }
    assert(wanted.take(k as int) == wanted);
    ops
}

impl BlitzDocument {
    /// Plans that the attributes of a rendered node become those of `node`.
    /// Attributes that have not changed are left alone: to clear and set the
    /// `href` of a style sheet link that is still loading would unload it.
    pub fn sync_all_attributes(&mut self, dom: &Dom, tree: &RenderTree, node: NodePtr) -> (res: Option<
        MirrorPlan,
    >)
        requires
            dom.wf(),
            node < dom@.len(),
            old(self)@.next_mirror_op_id < u64::MAX,
        ensures
            match res {
                Some(plan) => {
                    let id = old(self)@.to_blitz[node];
                    &&& old(self)@.to_blitz.contains_key(node)
                    &&& final(self)@ == old(self)@
                    &&& plan@ == (PlanView {
                        op: op_for_node("sync_all_attributes", dom@, node),
                        ops: diff_ops(
                            id,
                            attributes_at(tree@, id),
                            desired_attributes(dom@[node as int]),
                        ),
                        created: Seq::empty(),
                        complete: true,
                        forget: None,
                        reported: Reported::Id(id),
                    })
                },
                None => !old(self)@.to_blitz.contains_key(node) && refused(
                    old(self)@,
                    final(self)@,
                    op_for_node("sync_all_attributes", dom@, node),
                ),
            },
    {
        let op = MirrorOp::for_node("sync_all_attributes", dom, node);
        let id: usize = match self.blitz_node_id_for_dom(node) {
            Some(id) => id,
            None => {
                self.record_mirror_failure(&op, MirrorMutationFailure::MissingMapping);
                return None;
            },
        };
        let desired: Vec<RenderAttribute> = match dom.node(node) {
            Node::Element(el) => qualified_attributes(&el.attributes),
            _ => Vec::new(),
        };
        assert(attribute_views(desired@) =~= desired_attributes(dom@[node as int]));
        let empty: Vec<RenderAttribute> = Vec::new();
        assert(attribute_views(empty@) =~= Seq::<RenderAttributeView>::empty());
        let ops = match tree.get_node(id) {
            Some(shown) => match shown.data.downcast_element() {
                Some(el) => diff_attributes(id, &el.attrs, &desired),
                None => diff_attributes(id, &empty, &desired),
            },
            None => diff_attributes(id, &empty, &desired),
        };
        let plan = MirrorPlan {
            op,
            ops,
            created: Vec::new(),
            complete: true,
            forget: None,
            reported: Reported::Id(id),
        };
        Some(plan)
    }
}

/// Attributes by name.
pub open spec fn attribute_map(list: Seq<RenderAttributeView>) -> Map<QualNameView, Seq<char>>
    decreases list.len(),
{
    if list.len() == 0 {
        Map::empty()
    } else {
        attribute_map(list.drop_last()).insert(list.last().name, list.last().value)
    }
}

/// Whether no two attributes of the list have the same name.
pub open spec fn distinct_names(list: Seq<RenderAttributeView>) -> bool {
    forall|i: int, j: int|
        0 <= i < j < list.len() ==> #[trigger] list[i].name != #[trigger] list[j].name
}

/// The attributes after operations have been carried out.
pub open spec fn after_ops(m: Map<QualNameView, Seq<char>>, ops: Seq<RenderOpView>) -> Map<
    QualNameView,
    Seq<char>,
>
    decreases ops.len(),
{
    if ops.len() == 0 {
        m
    } else {
        let before = after_ops(m, ops.drop_last());
        match ops.last() {
            RenderOpView::SetAttribute { node, name, value } => before.insert(name, value),
            RenderOpView::ClearAttribute { node, name } => before.remove(name),
            _ => before,
        }
    }
}

proof fn lemma_after_ops_join(
    m: Map<QualNameView, Seq<char>>,
    a: Seq<RenderOpView>,
    b: Seq<RenderOpView>,
)
    ensures
        after_ops(m, a + b) == after_ops(after_ops(m, a), b),
    decreases b.len(),
{
    if b.len() == 0 {
        assert(a + b =~= a);
    } else {
        assert((a + b).drop_last() =~= a + b.drop_last());
        lemma_after_ops_join(m, a, b.drop_last());
    }
}

proof fn lemma_attribute_map(list: Seq<RenderAttributeView>)
    ensures
        forall|name: QualNameView| #[trigger]
            attribute_map(list).contains_key(name) == has_name(list, name),
        distinct_names(list) ==> forall|i: int|
            0 <= i < list.len() ==> attribute_map(list)[(#[trigger] list[i]).name]
                == list[i].value,
    decreases list.len(),
{
    if list.len() > 0 {
        let front = list.drop_last();
        lemma_attribute_map(front);
        assert forall|name: QualNameView| #[trigger]
            attribute_map(list).contains_key(name) == has_name(list, name) by {
            assert(attribute_map(front).contains_key(name) == has_name(front, name));
            if has_name(front, name) {
                let i = choose|i: int| 0 <= i < front.len() && #[trigger] front[i].name == name;
                assert(list[i].name == name);
            }
            if name == list.last().name {
                assert(list[list.len() - 1].name == name);
            }
            if has_name(list, name) && name != list.last().name {
                let i = choose|i: int| 0 <= i < list.len() && #[trigger] list[i].name == name;
                assert(front[i].name == name);
            }
        }
        if distinct_names(list) {
            assert(distinct_names(front)) by {
                assert forall|i: int, j: int|
                    0 <= i < j < front.len() implies #[trigger] front[i].name
                    != #[trigger] front[j].name by {
                    assert(list[i].name != list[j].name);
                }
            }
            assert forall|i: int| 0 <= i < list.len() implies attribute_map(list)[(
            #[trigger] list[i]).name] == list[i].value by {
                if i < front.len() {
                    assert(front[i] == list[i]);
                    assert(list[i].name != list[list.len() - 1].name);
                }
            }
        }
    }
}

proof fn lemma_after_clears(
    m: Map<QualNameView, Seq<char>>,
    id: usize,
    existing: Seq<RenderAttributeView>,
    desired: Seq<RenderAttributeView>,
    name: QualNameView,
)
    ensures
        ({
            let e = after_ops(m, clear_ops(id, existing, desired));
            &&& e.contains_key(name) == (m.contains_key(name) && !(has_name(existing, name)
                && !has_name(desired, name)))
            &&& e.contains_key(name) ==> e[name] == m[name]
        }),
    decreases existing.len(),
{
    if existing.len() > 0 {
        let front = existing.drop_last();
        lemma_after_clears(m, id, front, desired, name);
        let before = clear_ops(id, front, desired);
        let all = clear_ops(id, existing, desired);
        if has_name(front, name) {
            let i = choose|i: int| 0 <= i < front.len() && #[trigger] front[i].name == name;
            assert(existing[i].name == name);
        }
        if existing.last().name == name {
            assert(existing[existing.len() - 1].name == name);
        }
        if has_name(existing, name) && existing.last().name != name {
            let i = choose|i: int| 0 <= i < existing.len() && #[trigger] existing[i].name == name;
            assert(front[i].name == name);
        }
        if !has_name(desired, existing.last().name) {
            assert(all.drop_last() =~= before);
        }
    }
}

proof fn lemma_after_sets(
    m: Map<QualNameView, Seq<char>>,
    id: usize,
    existing: Seq<RenderAttributeView>,
    desired: Seq<RenderAttributeView>,
    name: QualNameView,
)
    requires
        distinct_names(desired),
    ensures
        ({
            let e = after_ops(m, set_ops(id, existing, desired));
            &&& !has_name(desired, name) ==> e.contains_key(name) == m.contains_key(name) && (
            m.contains_key(name) ==> e[name] == m[name])
            &&& forall|i: int|
                0 <= i < desired.len() && (#[trigger] desired[i]).name == name ==> if has_pair(
                    existing,
                    desired[i],
                ) {
                    e.contains_key(name) == m.contains_key(name) && (m.contains_key(name)
                        ==> e[name] == m[name])
                } else {
                    e.contains_key(name) && e[name] == desired[i].value
                }
        }),
    decreases desired.len(),
{
    if desired.len() > 0 {
        let front = desired.drop_last();
        let last = desired.last();
        assert(distinct_names(front)) by {
            assert forall|i: int, j: int| 0 <= i < j < front.len() implies #[trigger] front[i].name
                != #[trigger] front[j].name by {
                assert(desired[i].name != desired[j].name);
            }
        }
        lemma_after_sets(m, id, existing, front, name);
        let before = set_ops(id, existing, front);
        let all = set_ops(id, existing, desired);
        if !has_pair(existing, last) {
            assert(all.drop_last() =~= before);
        }
        if has_name(front, name) {
            let i = choose|i: int| 0 <= i < front.len() && #[trigger] front[i].name == name;
            assert(desired[i].name == name);
            assert(desired[i].name != desired[desired.len() - 1].name);
        }
        if last.name == name {
            assert(desired[desired.len() - 1].name == name);
            assert(!has_name(front, name));
        }
        let e = after_ops(m, all);
        assert forall|i: int| 0 <= i < desired.len() && (#[trigger] desired[i]).name == name implies (
        if has_pair(existing, desired[i]) {
            e.contains_key(name) == m.contains_key(name) && (m.contains_key(name) ==> e[name]
                == m[name])
        } else {
            e.contains_key(name) && e[name] == desired[i].value
        }) by {
            if i < front.len() {
                assert(front[i] == desired[i]);
                assert(desired[i].name != desired[desired.len() - 1].name);
            }
        }
    }
}

/// The difference between two lists of attributes turns the first one into the
/// second one.
pub proof fn law_difference_yields_desired_attributes(
    id: usize,
    existing: Seq<RenderAttributeView>,
    desired: Seq<RenderAttributeView>,
)
    requires
        distinct_names(existing),
        distinct_names(desired),
    ensures
        after_ops(attribute_map(existing), diff_ops(id, existing, desired)) == attribute_map(
            desired,
        ),
{
    let m = attribute_map(existing);
    let cleared = after_ops(m, clear_ops(id, existing, desired));
    let e = after_ops(cleared, set_ops(id, existing, desired));
    lemma_after_ops_join(m, clear_ops(id, existing, desired), set_ops(id, existing, desired));
    lemma_attribute_map(existing);
    lemma_attribute_map(desired);
    assert forall|name: QualNameView| #[trigger]
        e.contains_key(name) == attribute_map(desired).contains_key(name) && (e.contains_key(name)
            ==> e[name] == attribute_map(desired)[name]) by {
        lemma_after_clears(m, id, existing, desired, name);
        lemma_after_sets(cleared, id, existing, desired, name);
        if has_name(desired, name) {
            let i = choose|i: int| 0 <= i < desired.len() && #[trigger] desired[i].name == name;
            let a = desired[i];
            assert(attribute_map(desired)[name] == a.value);
            if has_pair(existing, a) {
                let j = choose|j: int| 0 <= j < existing.len() && #[trigger] existing[j] == a;
                assert(existing[j].name == name);
                assert(m.contains_key(name));
                assert(m[name] == a.value);
            }
        }
    }
    assert(e =~= attribute_map(desired));
}

} // verus!
