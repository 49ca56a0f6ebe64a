//! Carrying over changes of whole child lists.

use crate::blitz_document::document::{mirror_of, op_for_parent, BlitzDocument, BlitzState,
    MirrorMutationFailure, MirrorOp};
use crate::blitz_document::maps::{child_nodes_for_blitz, composable, drop_ready, dropped,
    remove_blitz_subtree_mapping, remove_subtree_mappings_for_children, rendered_children,
    unmap_all_ends, unmapped_all, Mirror};
use crate::blitz_document::plan::{append_dom_children, blank, blitz_ids_for_dom_child,
    create_shadow_root_node, draft_view, op_views, plan_child_ends, plan_children_end,
    plan_shadow_ends, planned_child, planned_children, planned_shadow, Draft, DraftedList,
    DraftView, RenderOp, RenderOpView, RenderRef};
use crate::blitz_document::names::HTML_NS;
use crate::blitz_document::render::{RenderTree, RenderView};
use crate::blitz_document::sync::{child_ids_at, closing, namespace_at, node_namespace, put_op,
    refused, single_plan, MirrorPlan, PlanView, Reported, Spot};
use crate::dom::node::{copy_list, Dom, NodePtr};
use crate::dom::shadow::distributed;
use std::collections::BTreeMap;
use vstd::prelude::*;

verus! {

broadcast use vstd::std_specs::btree::group_btree_axioms;

/// The mirror without the rendered nodes of a list and what is rendered below
/// them.
pub open spec fn dropped_ids(m: Mirror, ids: Seq<usize>) -> Mirror
    decreases ids.len(),
{
    if ids.len() == 0 {
        m
    } else {
        let before = dropped_ids(m, ids.drop_last());
        dropped(before, ids.last(), before.to_legacy.dom().len())
    }
}

/// Whether the rendered children of every node that dropping the list meets
/// can be computed.
pub open spec fn drop_ids_ready(m: Mirror, ids: Seq<usize>) -> bool
    decreases ids.len(),
{
    ids.len() == 0 || {
        let before = dropped_ids(m, ids.drop_last());
        &&& drop_ids_ready(m, ids.drop_last())
        &&& drop_ready(before, ids.last(), before.to_legacy.dom().len())
    }
}

proof fn lemma_drop_ids_prefix(m: Mirror, ids: Seq<usize>, k: int)
    requires
        drop_ids_ready(m, ids),
        0 <= k <= ids.len(),
    ensures
        drop_ids_ready(m, ids.take(k)),
    decreases ids.len(),
{
    if k == ids.len() {
        assert(ids.take(k) == ids);
    } else {
        lemma_drop_ids_prefix(m, ids.drop_last(), k);
        assert(ids.drop_last().take(k) == ids.take(k));
    }
}

/// A shadow root that is rendered with a given mode.
pub struct Marked {
    pub root: NodePtr,
    pub mode: Seq<char>,
}

/// The draft of one child: a marked shadow root gets its container, anything
/// else what inserting it inserts.
pub open spec fn planned_item(
    to_blitz: Map<usize, usize>,
    w: DraftView,
    child: NodePtr,
    ns: Seq<char>,
    marked: Option<Marked>,
    fuel: nat,
) -> DraftedList {
    if marked is Some && marked->0.root == child {
        let one = planned_shadow(to_blitz, w, child, ns, marked->0.mode, fuel);
        DraftedList { draft: one.draft, nodes: seq![one.node] }
    } else {
        planned_child(to_blitz, w, child, ns, fuel)
    }
}

/// Whether the walk that [`planned_item`] describes ends.
pub open spec fn plan_item_ends(
    to_blitz: Map<usize, usize>,
    w: DraftView,
    child: NodePtr,
    ns: Seq<char>,
    marked: Option<Marked>,
    fuel: nat,
) -> bool {
    if marked is Some && marked->0.root == child {
        plan_shadow_ends(to_blitz, w, child, ns, marked->0.mode, fuel)
    } else {
        plan_child_ends(to_blitz, w, child, ns, fuel)
    }
}

/// The draft of a list of children.
pub open spec fn planned_items(
    to_blitz: Map<usize, usize>,
    w: DraftView,
    kids: Seq<NodePtr>,
    ns: Seq<char>,
    marked: Option<Marked>,
) -> DraftedList
    decreases kids.len(),
{
    if kids.len() == 0 {
        DraftedList { draft: w, nodes: Seq::empty() }
    } else {
        let before = planned_items(to_blitz, w, kids.drop_last(), ns, marked);
        let last = planned_item(
            to_blitz,
            before.draft,
            kids.last(),
            ns,
            marked,
            before.draft.dom.len(),
        );
        DraftedList { draft: last.draft, nodes: before.nodes + last.nodes }
    }
}

/// Whether the walk that [`planned_items`] describes ends.
pub open spec fn plan_items_end(
    to_blitz: Map<usize, usize>,
    w: DraftView,
    kids: Seq<NodePtr>,
    ns: Seq<char>,
    marked: Option<Marked>,
) -> bool
    decreases kids.len(),
{
    kids.len() == 0 || {
        let before = planned_items(to_blitz, w, kids.drop_last(), ns, marked);
        &&& plan_items_end(to_blitz, w, kids.drop_last(), ns, marked)
        &&& plan_item_ends(
            to_blitz,
            before.draft,
            kids.last(),
            ns,
            marked,
            before.draft.dom.len(),
        )
    }
}

proof fn lemma_items_prefix(
    to_blitz: Map<usize, usize>,
    w: DraftView,
    kids: Seq<NodePtr>,
    ns: Seq<char>,
    marked: Option<Marked>,
    k: int,
)
    requires
        plan_items_end(to_blitz, w, kids, ns, marked),
        0 <= k <= kids.len(),
    ensures
        plan_items_end(to_blitz, w, kids.take(k), ns, marked),
    decreases kids.len(),
{
    if k == kids.len() {
        assert(kids.take(k) == kids);
    } else {
        lemma_items_prefix(to_blitz, w, kids.drop_last(), ns, marked, k);
        assert(kids.drop_last().take(k) == kids.take(k));
    }
}

/// The mirror once the rendered children of `id` have been dropped.
pub open spec fn emptied(m: Mirror, t: RenderView, id: usize) -> Mirror {
    dropped_ids(m, child_ids_at(t, id))
}

/// The draft of the rendered children of `parent`, after those that the node
/// `id` had are gone.
pub open spec fn refilled(
    m: Mirror,
    t: RenderView,
    parent: NodePtr,
    id: usize,
    marked: Option<Marked>,
) -> DraftedList {
    let e = emptied(m, t, id);
    planned_items(
        e.to_blitz,
        DraftView {
            ops: seq![RenderOpView::DropAllChildren(id)],
            ..blank(distributed(e.dom, parent))
        },
        rendered_children(e.dom, parent),
        namespace_at(t, id),
        marked,
    )
}

/// Whether the walks that [`refilled`] describes end.
pub open spec fn refill_ends(
    m: Mirror,
    t: RenderView,
    parent: NodePtr,
    id: usize,
    marked: Option<Marked>,
) -> bool {
    let e = emptied(m, t, id);
    &&& drop_ids_ready(m, child_ids_at(t, id))
    &&& composable(e.dom, parent)
    &&& plan_items_end(
        e.to_blitz,
        DraftView {
            ops: seq![RenderOpView::DropAllChildren(id)],
            ..blank(distributed(e.dom, parent))
        },
        rendered_children(e.dom, parent),
        namespace_at(t, id),
        marked,
    )
}

/// The plan that replaces the children of the rendered node `id`.
pub open spec fn refill_plan(list: DraftedList, id: usize, op: MirrorOp, reported: Reported) -> PlanView {
    PlanView {
        op,
        ops: closing(list, put_op(Spot::End(id), list.nodes)),
        created: list.draft.created,
        complete: true,
        forget: None,
        reported,
    }
}

/// The subject of attaching a shadow root.
pub open spec fn attach_op(host: NodePtr, root: NodePtr) -> MirrorOp {
    MirrorOp {
        op_name: "sync_attach_shadow_root",
        legacy_node: Some(root),
        parent: Some(host),
        child: Some(root),
        shadow_root: true,
    }
}

fn drop_ids(
    dom: &mut Dom,
    legacy_to_blitz: &mut BTreeMap<usize, usize>,
    blitz_to_legacy: &mut BTreeMap<usize, NodePtr>,
    ids: &Vec<usize>,
)
    requires
        old(dom).wf(),
        drop_ids_ready(
            (Mirror {
                dom: old(dom)@,
                to_blitz: old(legacy_to_blitz)@,
                to_legacy: old(blitz_to_legacy)@,
            }),
            ids@,
        ),
    ensures
        final(dom).wf(),
        (Mirror {
            dom: final(dom)@,
            to_blitz: final(legacy_to_blitz)@,
            to_legacy: final(blitz_to_legacy)@,
        }) == dropped_ids(
            (Mirror {
                dom: old(dom)@,
                to_blitz: old(legacy_to_blitz)@,
                to_legacy: old(blitz_to_legacy)@,
            }),
            ids@,
        ),
{
    let ghost m = Mirror {
        dom: dom@,
        to_blitz: legacy_to_blitz@,
        to_legacy: blitz_to_legacy@,
    };
    let mut i: usize = 0;
    while i < ids.len()
        invariant
            i <= ids.len(),
            dom.wf(),
            drop_ids_ready(m, ids@),
            (Mirror { dom: dom@, to_blitz: legacy_to_blitz@, to_legacy: blitz_to_legacy@ })
                == dropped_ids(m, ids@.take(i as int)),
        decreases ids.len() - i,
    {
        proof {
            lemma_drop_ids_prefix(m, ids@, i + 1);
            assert(ids@.take(i + 1).drop_last() == ids@.take(i as int));
            assert(ids@.take(i + 1).last() == ids@[i as int]);
        }
        remove_blitz_subtree_mapping(dom, ids[i], legacy_to_blitz, blitz_to_legacy);
        i = i + 1;
    }
    assert(ids@.take(i as int) == ids@);
}

fn draft_items(
    dom: &mut Dom,
    draft: &mut Draft,
    legacy_to_blitz: &BTreeMap<usize, usize>,
    kids: &Vec<NodePtr>,
    ns: &str,
    root: Option<NodePtr>,
    mode: &str,
) -> (res: Vec<RenderRef>)
    requires
        old(dom).wf(),
        plan_items_end(
            legacy_to_blitz@,
            draft_view(old(dom)@, *old(draft)),
            kids@,
            ns@,
            marked_root(root, mode@),
        ),
    ensures
        final(dom).wf(),
        (DraftedList { draft: draft_view(final(dom)@, *final(draft)), nodes: res@ })
            == planned_items(
            legacy_to_blitz@,
            draft_view(old(dom)@, *old(draft)),
            kids@,
            ns@,
            marked_root(root, mode@),
        ),
{
    let ghost base = draft_view(dom@, *draft);
    let ghost marked = marked_root(root, mode@);
    let mut res: Vec<RenderRef> = Vec::new();
    let mut i: usize = 0;
    while i < kids.len()
        invariant
            i <= kids.len(),
            dom.wf(),
            marked == marked_root(root, mode@),
            plan_items_end(legacy_to_blitz@, base, kids@, ns@, marked),
            (DraftedList { draft: draft_view(dom@, *draft), nodes: res@ }) == planned_items(
                legacy_to_blitz@,
                base,
                kids@.take(i as int),
                ns@,
                marked,
            ),
        decreases kids.len() - i,
    {
        proof {
            lemma_items_prefix(legacy_to_blitz@, base, kids@, ns@, marked, i + 1);
            assert(kids@.take(i + 1).drop_last() == kids@.take(i as int));
            assert(kids@.take(i + 1).last() == kids@[i as int]);
        }
        let ghost before = res@;
        let is_root = match root {
            Some(r) => r == kids[i],
            None => false,
        };
        if is_root {
            let node = create_shadow_root_node(dom, draft, legacy_to_blitz, kids[i], ns, mode);
            res.push(node);
            assert(res@ =~= before + seq![node]);
        } else {
            let mut nodes = blitz_ids_for_dom_child(dom, draft, legacy_to_blitz, kids[i], ns);
            res.append(&mut nodes);
        }
        i = i + 1;
    }
    assert(kids@.take(i as int) == kids@);
    res
}

/// The marked shadow root, if there is one.
pub open spec fn marked_root(root: Option<NodePtr>, mode: Seq<char>) -> Option<Marked> {
    match root {
        Some(r) => Some(Marked { root: r, mode }),
        None => None,
    }
}

fn children_at(tree: &RenderTree, id: usize) -> (res: Vec<usize>)
    ensures
        res@ == child_ids_at(tree@, id),
{
    match tree.get_node(id) {
        Some(node) => copy_list(&node.children),
        None => Vec::new(),
    }
}

impl BlitzDocument {
    fn refill(
        &mut self,
        dom: &mut Dom,
        tree: &RenderTree,
        parent: NodePtr,
        id: usize,
        root: Option<NodePtr>,
        mode: &str,
        op: MirrorOp,
        reported: Reported,
    ) -> (res: MirrorPlan)
        requires
            old(dom).wf(),
            refill_ends(
                mirror_of(old(self)@, old(dom)@),
                tree@,
                parent,
                id,
                marked_root(root, mode@),
            ),
        ensures
            final(dom).wf(),
            res@ == refill_plan(
                refilled(
                    mirror_of(old(self)@, old(dom)@),
                    tree@,
                    parent,
                    id,
                    marked_root(root, mode@),
                ),
                id,
                op,
                reported,
            ),
            final(dom)@ == refilled(
                mirror_of(old(self)@, old(dom)@),
                tree@,
                parent,
                id,
                marked_root(root, mode@),
            ).draft.dom,
            final(self)@ == (BlitzState {
                to_blitz: emptied(mirror_of(old(self)@, old(dom)@), tree@, id).to_blitz,
                to_legacy: emptied(mirror_of(old(self)@, old(dom)@), tree@, id).to_legacy,
                ..old(self)@
            }),
    {
        let ghost m = mirror_of(self@, dom@);
        let ghost marked = marked_root(root, mode@);
        let ids = children_at(tree, id);
        drop_ids(dom, &mut self.legacy_to_blitz, &mut self.blitz_to_legacy, &ids);
        let ghost e = emptied(m, tree@, id);
        assert(mirror_of(self@, dom@) == e);
        let mut draft = Draft::new();
        assert(draft_view(dom@, draft) == blank(dom@));
        draft.push(RenderOp::DropAllChildren(id));
        assert(draft_view(dom@, draft).ops =~= seq![RenderOpView::DropAllChildren(id)]);
        let kids = child_nodes_for_blitz(dom, parent);
        assert(draft_view(dom@, draft) =~= DraftView {
            ops: seq![RenderOpView::DropAllChildren(id)],
            ..blank(distributed(e.dom, parent))
        });
        let ns = node_namespace(tree, id);
        let nodes = draft_items(
            dom,
            &mut draft,
            &self.legacy_to_blitz,
            &kids,
            ns.as_str(),
            root,
            mode,
        );
        let ghost list = DraftedList { draft: draft_view(dom@, draft), nodes: nodes@ };
        assert(list == refilled(m, tree@, parent, id, marked));
        if nodes.len() > 0 {
            draft.push(
                RenderOp::AppendChildren { parent: RenderRef::Existing(id), children: nodes },
            );
            assert(draft_view(dom@, draft).ops == closing(
                list,
                put_op(Spot::End(id), list.nodes),
            ));
        }
        let res = MirrorPlan {
            op,
            ops: draft.ops,
            created: draft.created,
            complete: true,
            forget: None,
            reported,
        };
        assert(res@ =~= refill_plan(list, id, op, reported));
        res
    }

    /// Plans that `shadow_root` becomes what is rendered below `host`: the
    /// light children that were rendered there give way to its container.
    pub fn sync_attach_shadow_root(
        &mut self,
        dom: &mut Dom,
        tree: &RenderTree,
        host: NodePtr,
        shadow_root: NodePtr,
        mode: &str,
    ) -> (res: Option<MirrorPlan>)
        requires
            old(dom).wf(),
            old(self)@.next_mirror_op_id < u64::MAX,
            old(self)@.to_blitz.contains_key(host) ==> refill_ends(
                mirror_of(old(self)@, old(dom)@),
                tree@,
                host,
                old(self)@.to_blitz[host],
                Some(Marked { root: shadow_root, mode: mode@ }),
            ),
        ensures
            final(dom).wf(),
            match res {
                Some(plan) => {
                    let m = mirror_of(old(self)@, old(dom)@);
                    let id = old(self)@.to_blitz[host];
                    let list = refilled(
                        m,
                        tree@,
                        host,
                        id,
                        Some(Marked { root: shadow_root, mode: mode@ }),
                    );
                    &&& old(self)@.to_blitz.contains_key(host)
                    &&& plan@ == refill_plan(
                        list,
                        id,
                        attach_op(host, shadow_root),
                        Reported::Node(shadow_root),
                    )
                    &&& final(dom)@ == list.draft.dom
                    &&& final(self)@ == (BlitzState {
                        to_blitz: emptied(m, tree@, id).to_blitz,
                        to_legacy: emptied(m, tree@, id).to_legacy,
                        ..old(self)@
                    })
                },
                None => {
                    &&& !old(self)@.to_blitz.contains_key(host)
                    &&& refused(old(self)@, final(self)@, attach_op(host, shadow_root))
                    &&& final(dom)@ == old(dom)@
                },
            },
    {
        let op = MirrorOp {
            op_name: "sync_attach_shadow_root",
            legacy_node: Some(shadow_root),
            parent: Some(host),
            child: Some(shadow_root),
            shadow_root: true,
        };
        match self.blitz_node_id_for_dom(host) {
            Some(id) => Some(
                self.refill(
                    dom,
                    tree,
                    host,
                    id,
                    Some(shadow_root),
                    mode,
                    op,
                    Reported::Node(shadow_root),
                ),
            ),
            None => {
                self.record_mirror_failure(&op, MirrorMutationFailure::MissingMapping);
                None
            },
        }
    }

    /// Plans that the rendered children of `parent` are built anew.
    pub fn sync_replace_children(&mut self, dom: &mut Dom, tree: &RenderTree, parent: NodePtr) -> (res:
        Option<MirrorPlan>)
        requires
            old(dom).wf(),
            parent < old(dom)@.len(),
            old(self)@.next_mirror_op_id < u64::MAX,
            old(self)@.to_blitz.contains_key(parent) ==> refill_ends(
                mirror_of(old(self)@, old(dom)@),
                tree@,
                parent,
                old(self)@.to_blitz[parent],
                None,
            ),
        ensures
            final(dom).wf(),
            match res {
                Some(plan) => {
                    let m = mirror_of(old(self)@, old(dom)@);
                    let id = old(self)@.to_blitz[parent];
                    let list = refilled(m, tree@, parent, id, None);
                    &&& old(self)@.to_blitz.contains_key(parent)
                    &&& plan@ == refill_plan(
                        list,
                        id,
                        op_for_parent("sync_replace_children", old(dom)@, parent),
                        Reported::Id(id),
                    )
                    &&& final(dom)@ == list.draft.dom
                    &&& final(self)@ == (BlitzState {
                        to_blitz: emptied(m, tree@, id).to_blitz,
                        to_legacy: emptied(m, tree@, id).to_legacy,
                        ..old(self)@
                    })
                },
                None => {
                    &&& !old(self)@.to_blitz.contains_key(parent)
                    &&& refused(
                        old(self)@,
                        final(self)@,
                        op_for_parent("sync_replace_children", old(dom)@, parent),
                    )
                    &&& final(dom)@ == old(dom)@
                },
            },
    {
        let op = MirrorOp::for_parent("sync_replace_children", dom, parent);
        match self.blitz_node_id_for_dom(parent) {
            Some(id) => Some(self.refill(dom, tree, parent, id, None, "", op, Reported::Id(id))),
            None => {
                self.record_mirror_failure(&op, MirrorMutationFailure::MissingMapping);
                None
            },
        }
    }

    /// Plans that the rendered children of `parent` go. They are forgotten at
    /// once.
    pub fn sync_clear_children(&mut self, dom: &mut Dom, parent: NodePtr) -> (res: Option<MirrorPlan>)
        requires
            old(dom).wf(),
            parent < old(dom)@.len(),
            old(self)@.next_mirror_op_id < u64::MAX,
            old(self)@.to_blitz.contains_key(parent) ==> composable(old(dom)@, parent)
                && unmap_all_ends(
                (Mirror {
                    dom: distributed(old(dom)@, parent),
                    ..mirror_of(old(self)@, old(dom)@)
                }),
                rendered_children(old(dom)@, parent),
                old(dom)@.len(),
            ),
        ensures
            final(dom).wf(),
            match res {
                Some(plan) => {
                    let m = mirror_of(old(self)@, old(dom)@);
                    let e = unmapped_all(
                        (Mirror { dom: distributed(old(dom)@, parent), ..m }),
                        rendered_children(old(dom)@, parent),
                        old(dom)@.len(),
                    );
                    let id = old(self)@.to_blitz[parent];
                    &&& old(self)@.to_blitz.contains_key(parent)
                    &&& plan@ == single_plan(
                        op_for_parent("sync_clear_children", old(dom)@, parent),
                        RenderOpView::DropAllChildren(id),
                        id,
                    )
                    &&& final(dom)@ == e.dom
                    &&& final(self)@ == (BlitzState {
                        to_blitz: e.to_blitz,
                        to_legacy: e.to_legacy,
                        ..old(self)@
                    })
                },
                None => {
                    &&& !old(self)@.to_blitz.contains_key(parent)
                    &&& refused(
                        old(self)@,
                        final(self)@,
                        op_for_parent("sync_clear_children", old(dom)@, parent),
                    )
                    &&& final(dom)@ == old(dom)@
                },
            },
    {
        let op = MirrorOp::for_parent("sync_clear_children", dom, parent);
        let id: usize = match self.blitz_node_id_for_dom(parent) {
            Some(id) => id,
            None => {
                self.record_mirror_failure(&op, MirrorMutationFailure::MissingMapping);
                return None;
            },
        };
        remove_subtree_mappings_for_children(
            dom,
            parent,
            &mut self.legacy_to_blitz,
            &mut self.blitz_to_legacy,
        );
        let mut ops: Vec<RenderOp> = Vec::new();
        ops.push(RenderOp::DropAllChildren(id));
        assert(op_views(ops@) =~= seq![RenderOpView::DropAllChildren(id)]);
        Some(
            MirrorPlan {
                op,
                ops,
                created: Vec::new(),
                complete: true,
                forget: None,
                reported: Reported::Id(id),
            },
        )
    }

    /// A document that renders `root` as the renderer's node 0, with the draft
    /// of everything below it. The ids of the nodes that the draft creates are
    /// handed to [`BlitzDocument::commit`].
    pub fn plan_from_dom(dom: &mut Dom, root: NodePtr) -> (res: (Self, Draft))
        requires
            old(dom).wf(),
            composable(old(dom)@, root),
            plan_children_end(
                map![root => 0usize],
                blank(distributed(old(dom)@, root)),
                RenderRef::Existing(0),
                rendered_children(old(dom)@, root),
                HTML_NS@,
                old(dom)@.len(),
            ),
        ensures
            final(dom).wf(),
            res.0@ == (BlitzState {
                healthy: true,
                consecutive_panics: 0,
                next_mirror_op_id: 1,
                last_mirror_mutation: None,
                to_blitz: map![root => 0usize],
                to_legacy: map![0usize => root],
            }),
            draft_view(final(dom)@, res.1) == planned_children(
                map![root => 0usize],
                blank(distributed(old(dom)@, root)),
                RenderRef::Existing(0),
                rendered_children(old(dom)@, root),
                HTML_NS@,
                old(dom)@.len(),
            ),
    {
        let mut doc = BlitzDocument::new();
        let _ = doc.legacy_to_blitz.insert(root, 0);
        let _ = doc.blitz_to_legacy.insert(0, root);
        assert(doc.legacy_to_blitz@ =~= map![root => 0usize]);
        assert(doc.blitz_to_legacy@ =~= map![0usize => root]);
        let mut draft = Draft::new();
        assert(draft_view(distributed(dom@, root), draft) == blank(distributed(dom@, root)));
        append_dom_children(
            dom,
            &mut draft,
            &doc.legacy_to_blitz,
            RenderRef::Existing(0),
            root,
            HTML_NS,
        );
        (doc, draft)
    }
}

} // verus!
