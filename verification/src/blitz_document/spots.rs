//! Where insertions go in the renderer.

use crate::blitz_document::document::MirrorOp;
use crate::blitz_document::plan::{blank, planned_child, RenderOpView, RenderRef};
use crate::blitz_document::sync::{insertion_plan, insertion_spot, Reported};
use crate::dom::node::{DomView, NodePtr};
use vstd::prelude::*;

verus! {

/// What is inserted before a rendered sibling goes right before what is rendered
/// for it; with no sibling, or one that is not rendered, it goes behind all that
/// is rendered below the parent. Where there is nothing to render, nothing is put
/// anywhere, and the plan says so.
pub proof fn law_insertions_go_before_the_sibling(
    d: DomView,
    to_blitz: Map<usize, usize>,
    parent: NodePtr,
    child: NodePtr,
    sibling: Option<NodePtr>,
    ns: Seq<char>,
    op: MirrorOp,
    reported: Reported,
)
    ensures
        ({
            let spot = insertion_spot(to_blitz, parent, sibling);
            let plan = insertion_plan(d, to_blitz, child, ns, spot, op, None, reported);
            let list = planned_child(to_blitz, blank(d), child, ns, d.len());
            &&& plan.created == list.draft.created
            &&& plan.complete == (list.nodes.len() > 0)
            &&& if list.nodes.len() == 0 {
                plan.ops == list.draft.ops
            } else {
                &&& plan.ops.drop_last() == list.draft.ops
                &&& plan.ops.last() == (if sibling is Some && to_blitz.contains_key(sibling->0) {
                    RenderOpView::InsertBefore { anchor: to_blitz[sibling->0], nodes: list.nodes }
                } else {
                    RenderOpView::AppendChildren {
                        parent: RenderRef::Existing(to_blitz[parent]),
                        children: list.nodes,
                    }
                })
            }
        }),
{
    let spot = insertion_spot(to_blitz, parent, sibling);
    let plan = insertion_plan(d, to_blitz, child, ns, spot, op, None, reported);
    let list = planned_child(to_blitz, blank(d), child, ns, d.len());
    if list.nodes.len() > 0 {
        assert(plan.ops.drop_last() =~= list.draft.ops);
    }
}

} // verus!
