//! What placing several nodes comes to.

use crate::dom::node::NodePtr;
use crate::js::dispatch::DomMutation;
use crate::js::placing::{appends, inserts, prepends};
use vstd::prelude::*;

verus! {

/// A list with `c` right before the first `r`; at the end if there is no `r`.
pub open spec fn with_before(list: Seq<NodePtr>, r: NodePtr, c: NodePtr) -> Seq<NodePtr>
    decreases list.len(),
{
    if list.len() == 0 || list[0] == r {
        seq![c] + list
    } else {
        seq![list[0]] + with_before(list.drop_first(), r, c)
    }
}

/// A child list after a mutation that brings in a new child.
pub open spec fn list_after(list: Seq<NodePtr>, m: DomMutation<'static>) -> Seq<NodePtr> {
    match m {
        DomMutation::AppendChild { parent, child } => list.push(child),
        DomMutation::PrependChild { parent, child } => seq![child] + list,
        DomMutation::InsertBefore { parent, new_child, ref_child } => match ref_child {
            Some(r) => with_before(list, r, new_child),
            None => list.push(new_child),
        },
        _ => list,
    }
}

/// A child list after mutations that bring in new children, one after the other.
pub open spec fn list_after_all(list: Seq<NodePtr>, ms: Seq<DomMutation<'static>>) -> Seq<NodePtr>
    decreases ms.len(),
{
    if ms.len() == 0 {
        list
    } else {
        list_after(list_after_all(list, ms.drop_last()), ms.last())
    }
}

/// Nodes that are appended stand behind the other children, in the order in which
/// they were given.
pub proof fn law_appended_nodes_keep_their_order(
    parent: NodePtr,
    list: Seq<NodePtr>,
    nodes: Seq<NodePtr>,
)
    ensures
        list_after_all(list, appends(parent, nodes)) == list + nodes,
    decreases nodes.len(),
{
    let ms = appends(parent, nodes);
    if nodes.len() == 0 {
        assert(list_after_all(list, ms) =~= list + nodes);
    } else {
        law_appended_nodes_keep_their_order(parent, list, nodes.drop_last());
        assert(ms.drop_last() =~= appends(parent, nodes.drop_last()));
        assert(list_after_all(list, ms) =~= list + nodes);
    }
}

/// Nodes that are prepended stand before the other children, in the order in which
/// they were given.
pub proof fn law_prepended_nodes_keep_their_order(
    parent: NodePtr,
    list: Seq<NodePtr>,
    nodes: Seq<NodePtr>,
)
    ensures
        list_after_all(list, prepends(parent, nodes)) == nodes + list,
    decreases nodes.len(),
{
    let ms = prepends(parent, nodes);
    if nodes.len() == 0 {
        assert(list_after_all(list, ms) =~= nodes + list);
    } else {
        let rest = nodes.drop_first();
        law_prepended_nodes_keep_their_order(parent, list, rest);
        assert(nodes.reverse().drop_last() =~= rest.reverse());
        assert(ms.drop_last() =~= prepends(parent, rest));
        assert(nodes.reverse().last() == nodes[0]);
        assert(list_after_all(list, ms) =~= nodes + list);
    }
}

/// Nodes that are inserted before a child stand right before it, in the order in
/// which they were given.
pub proof fn law_inserted_nodes_keep_their_order(
    parent: NodePtr,
    front: Seq<NodePtr>,
    r: NodePtr,
    back: Seq<NodePtr>,
    nodes: Seq<NodePtr>,
)
    requires
        !front.contains(r),
        !nodes.contains(r),
    ensures
        list_after_all(front + seq![r] + back, inserts(parent, nodes, Some(r))) == front + nodes
            + seq![r] + back,
        list_after_all(front, inserts(parent, nodes, None)) == front + nodes,
    decreases nodes.len(),
{
    let list = front + seq![r] + back;
    let ms = inserts(parent, nodes, Some(r));
    let ends = inserts(parent, nodes, None);
    if nodes.len() == 0 {
        assert(list_after_all(list, ms) =~= front + nodes + seq![r] + back);
        assert(list_after_all(front, ends) =~= front + nodes);
    } else {
        let some = nodes.drop_last();
        assert(!some.contains(r)) by {
            if some.contains(r) {
                let i = choose|i: int| 0 <= i < some.len() && some[i] == r;
                assert(nodes[i] == r);
            }
        }
        law_inserted_nodes_keep_their_order(parent, front, r, back, some);
        assert(ms.drop_last() =~= inserts(parent, some, Some(r)));
        assert(ends.drop_last() =~= inserts(parent, some, None));
        let before = front + some;
        assert(!before.contains(r)) by {
            if before.contains(r) {
                let i = choose|i: int| 0 <= i < before.len() && before[i] == r;
                if i < front.len() {
                    assert(front[i] == r);
                } else {
                    assert(some[i - front.len()] == r);
                }
            }
        }
        assert(front + some + seq![r] + back =~= before + (seq![r] + back));
        lemma_right_before(before, r, back, nodes.last());
        assert(list_after_all(list, ms) =~= front + nodes + seq![r] + back);
        assert(list_after_all(front, ends) =~= front + nodes);
    }
}

proof fn lemma_right_before(front: Seq<NodePtr>, r: NodePtr, back: Seq<NodePtr>, c: NodePtr)
    requires
        !front.contains(r),
    ensures
        with_before(front + (seq![r] + back), r, c) == front + seq![c] + (seq![r] + back),
    decreases front.len(),
{
    let list = front + (seq![r] + back);
    if front.len() == 0 {
        assert(list =~= seq![r] + back);
        assert(with_before(list, r, c) =~= front + seq![c] + (seq![r] + back));
    } else {
        let rest = front.drop_first();
        assert(front[0] != r);
        assert(!rest.contains(r)) by {
            if rest.contains(r) {
                let i = choose|i: int| 0 <= i < rest.len() && rest[i] == r;
                assert(front[i + 1] == r);
            }
        }
        lemma_right_before(rest, r, back, c);
        assert(list.drop_first() =~= rest + (seq![r] + back));
        assert(list[0] == front[0]);
        assert(with_before(list, r, c) =~= front + seq![c] + (seq![r] + back));
    }
}

} // verus!
