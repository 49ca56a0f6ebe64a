//! What mutations come to in the tree.

use crate::dom::node::{attribute_of, children_of, closed_links, is_container, is_fragment,
    parent_of, DomView, NodePtr};
use crate::js::dispatch::{changed_dom, inserted_by, removed_by, DomMutation};
use crate::js::mutation::Place;
use crate::js::places::law_insertion_finds_the_place;
use vstd::prelude::*;

verus! {

/// Whether `c` can become a child of `p` where it stands: it is another node and no
/// fragment, and what is recorded as its parent fits the child lists.
pub open spec fn can_move(d: DomView, p: NodePtr, c: NodePtr) -> bool {
    &&& closed_links(d)
    &&& p < d.len()
    &&& c < d.len()
    &&& c != p
    &&& !is_fragment(d[c as int])
    &&& is_container(d[p as int])
    &&& children_of(d[p as int]).contains(c) ==> parent_of(d[c as int]) == Some(p)
    &&& parent_of(d[c as int]) != Some(c)
}

/// A child that is appended comes last, one that is prepended first, and the others
/// keep their order.
pub proof fn law_children_are_added_at_the_ends(
    d: DomView,
    p: NodePtr,
    c: NodePtr,
    others: Seq<NodePtr>,
)
    requires
        can_move(d, p, c),
        others == children_of(d[p as int]).filter(|x: NodePtr| x != c),
    ensures
        ({
            let last = DomMutation::AppendChild { parent: p, child: c };
            let first = DomMutation::PrependChild { parent: p, child: c };
            let apart = DomMutation::InsertBefore { parent: p, new_child: c, ref_child: None };
            &&& children_of(changed_dom(d, last)[p as int]) == others + seq![c]
            &&& children_of(changed_dom(d, first)[p as int]) == seq![c] + others
            &&& children_of(changed_dom(d, apart)[p as int]) == others + seq![c]
            &&& inserted_by(d, last) == seq![c]
            &&& inserted_by(d, first) == seq![c]
            &&& inserted_by(d, apart) == seq![c]
        }),
{
    law_insertion_finds_the_place(d, p, c, Place::End, others, others.len() as int);
    law_insertion_finds_the_place(d, p, c, Place::Start, others, 0);
    assert(others.insert(others.len() as int, c) =~= others + seq![c]);
    assert(others.insert(0, c) =~= seq![c] + others);
}

/// A child that is inserted before another stands right before it.
pub proof fn law_children_are_inserted_right_before(
    d: DomView,
    p: NodePtr,
    c: NodePtr,
    r: NodePtr,
    others: Seq<NodePtr>,
    at: int,
)
    requires
        can_move(d, p, c),
        others == children_of(d[p as int]).filter(|x: NodePtr| x != c),
        0 <= at < others.len(),
        others[at] == r,
        forall|j: int| 0 <= j < at ==> #[trigger] others[j] != r,
    ensures
        ({
            let m = DomMutation::InsertBefore { parent: p, new_child: c, ref_child: Some(r) };
            &&& children_of(changed_dom(d, m)[p as int]) == others.take(at) + seq![c]
                + others.skip(at)
            &&& inserted_by(d, m) == seq![c]
        }),
{
    law_insertion_finds_the_place(d, p, c, Place::Before(r), others, at);
    assert(others.insert(at, c) =~= others.take(at) + seq![c] + others.skip(at));
}

/// An attribute that is set is read back, one that is removed is gone, and no other
/// attribute and no other node changes.
pub proof fn law_attributes_are_set_and_removed(
    d: DomView,
    node: NodePtr,
    m: DomMutation,
    other: Seq<char>,
)
    requires
        node < d.len(),
        d[node as int] is Element,
        match m {
            DomMutation::SetAttribute { node: n, name, value } => n == node && other != name@,
            DomMutation::RemoveAttribute { node: n, name } => n == node && other != name@,
            _ => false,
        },
    ensures
        ({
            let e = changed_dom(d, m);
            &&& match m {
                DomMutation::SetAttribute { node: n, name, value } => attribute_of(
                    e[node as int],
                    name@,
                ) == Some(value@),
                DomMutation::RemoveAttribute { node: n, name } => attribute_of(
                    e[node as int],
                    name@,
                ) is None,
                _ => false,
            }
            &&& attribute_of(e[node as int], other) == attribute_of(d[node as int], other)
            &&& children_of(e[node as int]) == children_of(d[node as int])
            &&& parent_of(e[node as int]) == parent_of(d[node as int])
            &&& e.len() == d.len()
            &&& forall|i: int| 0 <= i < d.len() && i != node ==> #[trigger] e[i] == d[i]
        }),
{
}

/// What a replacement or a removal takes out is the child it names.
pub proof fn law_the_named_child_leaves(p: NodePtr, new_child: NodePtr, old_child: NodePtr)
    ensures
        removed_by(DomMutation::RemoveChild { parent: p, child: old_child }) == seq![old_child],
        removed_by(DomMutation::ReplaceChild { parent: p, new_child, old_child }) == seq![
            old_child,
        ],
{
}

} // verus!
