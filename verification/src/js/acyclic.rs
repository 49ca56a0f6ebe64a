//! Why mutations keep documents acyclic.
//!
//! Nothing stops a script from moving a node below itself. Any other mutation
//! of a document in which no node owns itself leaves it that way, and then the
//! walks of the next mutation end as well.

use crate::dom::layers::{acyclic, holds, holds_within, law_acyclic_walks_end, lemma_holds_held,
    lemma_holds_owned, lemma_new_links_stay_acyclic, owner_layers, owns};
use crate::dom::node::{adopted, children_of, closed_links, copy_list, finite_from, followed,
    is_container, is_document_fragment, is_fragment, links_ok, node_ok, parent_of, rechilded,
    relinked, relinked_all, reparented, Dom, DomView, NodePtr, NodeView, Reach};
use crate::dom::shadow::{lemma_without, without};
use crate::dom::walks::{is_acyclic, is_held};
use crate::js::dispatch::{can_mutate, changed_dom, clears, entering, inserted_by, leaving,
    lemma_named_nodes, linked_dom, names_nodes, target_of, target_of_mutation, DomMutation};
use crate::js::lifecycle::walk_roots;
use crate::js::mutation::{detached, enough, index_in, insertion_order, lemma_index_in, place_before,
    placed, placed_all, placed_one, put, replaced, substituted, Place};
use crate::js::query::is_direct_child;
use crate::js::registry::{next_after, RegistryView};
use vstd::prelude::*;

verus! {

/// Whether `e` has the links of `d`, and `p` beside its own at most nodes that
/// `c` holds.
spec fn grown(d: DomView, e: DomView, p: NodePtr, c: NodePtr) -> bool {
    &&& closed_links(e)
    &&& e.len() == d.len()
    &&& forall|a: NodePtr, b: NodePtr| #[trigger]
        owns(e, a, b) ==> owns(d, a, b) || a == p && holds(d, c, b)
}

/// What a node owns after it got another child list.
proof fn lemma_rechilded_owns(d: DomView, n: NodePtr, kids: Seq<NodePtr>)
    requires
        closed_links(d),
        n < d.len(),
        links_ok(kids, d.len()),
    ensures
        closed_links(rechilded(d, n, kids)),
        rechilded(d, n, kids).len() == d.len(),
        forall|a: NodePtr, b: NodePtr| #[trigger]
            owns(rechilded(d, n, kids), a, b) ==> owns(d, a, b) || a == n && kids.contains(b),
{
    let e = rechilded(d, n, kids);
    assert forall|i: int| 0 <= i < e.len() implies node_ok(#[trigger] e[i], e.len()) by {
        assert(node_ok(d[i], d.len()));
    }
    assert forall|a: NodePtr, b: NodePtr| #[trigger] owns(e, a, b) implies owns(d, a, b) || a == n
        && kids.contains(b) by {
        if a == n {
            let all = followed(e[a as int], Reach::All);
            let i = choose|i: int| 0 <= i < all.len() && all[i] == b;
            let mine = children_of(e[a as int]);
            if i < mine.len() {
                assert(mine[i] == b);
                if mine != kids {
                    assert(followed(d[a as int], Reach::All)[i] == b);
                }
            } else {
                let at = children_of(d[a as int]).len() + (i - mine.len());
                assert(followed(d[a as int], Reach::All)[at] == b);
            }
        }
    }
}

/// Parent pointers are no matter of ownership.
proof fn lemma_reparented_owns(d: DomView, n: NodePtr, p: Option<NodePtr>)
    requires
        closed_links(d),
        n < d.len(),
        p matches Some(x) ==> x < d.len(),
    ensures
        closed_links(reparented(d, n, p)),
        reparented(d, n, p).len() == d.len(),
        forall|a: NodePtr, b: NodePtr| #[trigger]
            owns(reparented(d, n, p), a, b) ==> owns(d, a, b),
        forall|i: int|
            0 <= i < d.len() ==> children_of(#[trigger] reparented(d, n, p)[i]) == children_of(
                d[i],
            ),
{
    let e = reparented(d, n, p);
    assert forall|i: int| 0 <= i < e.len() implies node_ok(#[trigger] e[i], e.len()) by {
        assert(node_ok(d[i], d.len()));
    }
    assert forall|a: NodePtr, b: NodePtr| #[trigger] owns(e, a, b) implies owns(d, a, b) by {
        assert(followed(e[a as int], Reach::All) == followed(d[a as int], Reach::All));
    }
}

/// A child is owned.
proof fn lemma_child_is_owned(d: DomView, a: NodePtr, b: NodePtr)
    requires
        a < d.len(),
        children_of(d[a as int]).contains(b),
    ensures
        owns(d, a, b),
{
    let kids = children_of(d[a as int]);
    let i = choose|i: int| 0 <= i < kids.len() && kids[i] == b;
    assert(followed(d[a as int], Reach::All)[i] == b);
}

proof fn lemma_detached_owns(d: DomView, c: NodePtr)
    requires
        closed_links(d),
        c < d.len(),
    ensures
        closed_links(detached(d, c)),
        detached(d, c).len() == d.len(),
        forall|a: NodePtr, b: NodePtr| #[trigger] owns(detached(d, c), a, b) ==> owns(d, a, b),
{
    assert(node_ok(d[c as int], d.len()));
    if let Some(p) = parent_of(d[c as int]) {
        let kids = children_of(d[p as int]);
        let kept = without(kids, c);
        assert(node_ok(d[p as int], d.len()));
        assert(links_ok(kids, d.len()));
        lemma_without(kids, c);
        lemma_rechilded_owns(d, p, kept);
        assert forall|a: NodePtr, b: NodePtr| #[trigger] owns(detached(d, c), a, b) implies owns(
            d,
            a,
            b,
        ) by {
            if a == p && kept.contains(b) {
                lemma_child_is_owned(d, a, b);
            }
        }
    }
}

/// What a list holds once `c` was put into it.
proof fn lemma_put(kids: Seq<NodePtr>, c: NodePtr, place: Place)
    ensures
        forall|b: NodePtr| #[trigger] put(kids, c, place).contains(b) ==> b == c || kids.contains(b),
{
    if place is Before {
        lemma_index_in(kids, place->Before_0);
    }
    let list = put(kids, c, place);
    let at = match place {
        Place::End => kids.len() as int,
        Place::Start => 0,
        Place::Before(r) => index_in(kids, r) as int,
    };
    assert(list =~= kids.insert(at, c));
    assert forall|b: NodePtr| #[trigger] list.contains(b) implies b == c || kids.contains(b) by {
        let i = choose|i: int| 0 <= i < list.len() && list[i] == b;
        if i < at {
            assert(kids[i] == b);
        } else if i > at {
            assert(kids[i - 1] == b);
        }
    }
}

proof fn lemma_placed_one_grows(
    d: DomView,
    e: DomView,
    p: NodePtr,
    c: NodePtr,
    x: NodePtr,
    place: Place,
)
    requires
        grown(d, e, p, c),
        p < d.len(),
        x < d.len(),
        holds(d, c, x),
    ensures
        grown(d, placed_one(e, p, x, place), p, c),
{
    let f = detached(e, x);
    lemma_detached_owns(e, x);
    if is_container(f[p as int]) {
        let kids = children_of(f[p as int]);
        let list = put(kids, x, place);
        assert(node_ok(f[p as int], f.len()));
        lemma_put(kids, x, place);
        assert forall|i: int| 0 <= i < list.len() implies #[trigger] list[i] < f.len() by {
            assert(list.contains(list[i]));
            if list[i] != x {
                let j = choose|j: int| 0 <= j < kids.len() && kids[j] == list[i];
                assert(kids[j] < f.len());
            }
        }
        lemma_rechilded_owns(f, p, list);
        let g = rechilded(f, p, list);
        lemma_reparented_owns(g, x, Some(p));
        assert forall|a: NodePtr, b: NodePtr| #[trigger]
            owns(reparented(g, x, Some(p)), a, b) implies owns(d, a, b) || a == p && holds(
            d,
            c,
            b,
        ) by {
            assert(owns(g, a, b));
            if !owns(f, a, b) {
                if b != x {
                    lemma_child_is_owned(f, p, b);
                }
            } else {
                assert(owns(e, a, b));
            }
        }
    } else {
        assert forall|a: NodePtr, b: NodePtr| #[trigger] owns(f, a, b) implies owns(d, a, b) || a
            == p && holds(d, c, b) by {
            assert(owns(e, a, b));
        }
    }
}

proof fn lemma_placed_grows(
    d: DomView,
    e: DomView,
    p: NodePtr,
    c: NodePtr,
    x: NodePtr,
    place: Place,
    fuel: nat,
)
    requires
        grown(d, e, p, c),
        p < d.len(),
        x < d.len(),
        holds(d, c, x),
    ensures
        grown(d, placed(e, p, x, place, fuel), p, c),
    decreases fuel, 0nat,
{
    if !is_fragment(e[x as int]) {
        lemma_placed_one_grows(d, e, p, c, x, place);
    } else if fuel > 0 {
        let none = Seq::<NodePtr>::empty();
        let kids = children_of(e[x as int]);
        let list = insertion_order(kids, place);
        lemma_rechilded_owns(e, x, none);
        assert(node_ok(e[x as int], e.len()));
        let f = rechilded(e, x, none);
        assert forall|a: NodePtr, b: NodePtr| #[trigger] owns(f, a, b) implies owns(d, a, b) || a
            == p && holds(d, c, b) by {
            assert(owns(e, a, b));
        }
        assert forall|i: int| 0 <= i < list.len() implies (#[trigger] list[i]) < d.len() && holds(
            d,
            c,
            list[i],
        ) by {
            let j = if place is Start {
                kids.len() - 1 - i
            } else {
                i
            };
            assert(kids[j] == list[i]);
            assert(kids[j] < e.len());
            assert(kids.contains(kids[j]));
            lemma_child_is_owned(e, x, list[i]);
            if owns(d, x, list[i]) {
                lemma_holds_owned(d, c, x, list[i]);
            }
        }
        lemma_placed_all_grows(d, f, p, c, list, place, (fuel - 1) as nat);
    }
}

proof fn lemma_placed_all_grows(
    d: DomView,
    e: DomView,
    p: NodePtr,
    c: NodePtr,
    list: Seq<NodePtr>,
    place: Place,
    fuel: nat,
)
    requires
        grown(d, e, p, c),
        p < d.len(),
        forall|i: int|
            0 <= i < list.len() ==> (#[trigger] list[i]) < d.len() && holds(d, c, list[i]),
    ensures
        grown(d, placed_all(e, p, list, place, fuel), p, c),
    decreases fuel, list.len() + 1,
{
    if list.len() > 0 {
        assert forall|i: int| 0 <= i < list.drop_last().len() implies (
        #[trigger] list.drop_last()[i]) < d.len() && holds(d, c, list.drop_last()[i]) by {
            assert(list[i] == list.drop_last()[i]);
        }
        assert(list[list.len() - 1] == list.last());
        lemma_placed_all_grows(d, e, p, c, list.drop_last(), place, fuel);
        let f = placed_all(e, p, list.drop_last(), place, fuel);
        lemma_detached_owns(f, list.last());
        let g = if place is Start {
            detached(f, list.last())
        } else {
            f
        };
        assert forall|a: NodePtr, b: NodePtr| #[trigger] owns(g, a, b) implies owns(d, a, b) || a
            == p && holds(d, c, b) by {
            assert(owns(f, a, b));
        }
        lemma_placed_grows(d, g, p, c, list.last(), place, fuel);
    }
}

/// Nodes that a node holds may be moved below any node that it does not hold.
proof fn lemma_grown_is_acyclic(d: DomView, e: DomView, p: NodePtr, c: NodePtr)
    requires
        acyclic(d),
        grown(d, e, p, c),
        p < d.len(),
        !holds(d, c, p),
    ensures
        acyclic(e),
{
    assert forall|a: NodePtr, b: NodePtr| #[trigger] owns(e, a, b) implies owns(d, a, b) || a == p
        && (b >= d.len() || !holds(d, b, p)) by {
        if !owns(d, a, b) && holds(d, b, p) {
            lemma_holds_held(d, c, b, p);
        }
    }
    lemma_new_links_stay_acyclic(d, e, p);
}

/// A move keeps a document acyclic unless it puts a node below itself.
pub proof fn law_moves_keep_documents_acyclic(d: DomView, p: NodePtr, c: NodePtr, place: Place)
    requires
        acyclic(d),
        p < d.len(),
        c < d.len(),
        !holds(d, c, p),
    ensures
        acyclic(placed(d, p, c, place, enough(d))),
        placed(d, p, c, place, enough(d)).len() == d.len(),
{
    assert(holds_within(d, c, c, 0));
    lemma_placed_grows(d, d, p, c, c, place, enough(d));
    lemma_grown_is_acyclic(d, placed(d, p, c, place, enough(d)), p, c);
}

/// What a list holds once the nodes of another have taken the place of `x`.
proof fn lemma_substituted(kids: Seq<NodePtr>, x: NodePtr, list: Seq<NodePtr>)
    requires
        kids.contains(x),
    ensures
        forall|b: NodePtr| #[trigger]
            substituted(kids, x, list).contains(b) ==> list.contains(b) || kids.contains(b),
{
    lemma_index_in(kids, x);
    let at = index_in(kids, x) as int;
    let all = substituted(kids, x, list);
    assert forall|b: NodePtr| #[trigger] all.contains(b) implies list.contains(b) || kids.contains(
        b,
    ) by {
        let i = choose|i: int| 0 <= i < all.len() && all[i] == b;
        if i < at {
            assert(kids[i] == b);
        } else if i < at + list.len() {
            assert(list[i - at] == b);
        } else {
            assert(kids[i - list.len() + 1] == b);
        }
    }
}

proof fn lemma_adopted_owns(d: DomView, kids: Seq<NodePtr>, p: NodePtr)
    requires
        closed_links(d),
        p < d.len(),
        links_ok(kids, d.len()),
    ensures
        closed_links(adopted(d, kids, p)),
        adopted(d, kids, p).len() == d.len(),
        forall|a: NodePtr, b: NodePtr| #[trigger] owns(adopted(d, kids, p), a, b) ==> owns(d, a, b),
    decreases kids.len(),
{
    if kids.len() > 0 {
        assert forall|i: int| 0 <= i < kids.drop_last().len() implies #[trigger] kids.drop_last()[i]
            < d.len() by {
            assert(kids[i] < d.len());
        }
        assert(kids[kids.len() - 1] < d.len());
        lemma_adopted_owns(d, kids.drop_last(), p);
        lemma_reparented_owns(adopted(d, kids.drop_last(), p), kids.last(), Some(p));
    }
}

/// Replacing the child `x` of `p` by the nodes of a list.
proof fn lemma_substitution_grows(
    d: DomView,
    e: DomView,
    p: NodePtr,
    c: NodePtr,
    x: NodePtr,
    list: Seq<NodePtr>,
)
    requires
        grown(d, e, p, c),
        p < d.len(),
        children_of(e[p as int]).contains(x),
        forall|i: int|
            0 <= i < list.len() ==> (#[trigger] list[i]) < d.len() && holds(d, c, list[i]),
    ensures
        grown(d, rechilded(e, p, substituted(children_of(e[p as int]), x, list)), p, c),
{
    let kids = children_of(e[p as int]);
    let all = substituted(kids, x, list);
    assert(node_ok(e[p as int], e.len()));
    lemma_substituted(kids, x, list);
    assert forall|i: int| 0 <= i < all.len() implies #[trigger] all[i] < e.len() by {
        assert(all.contains(all[i]));
        if list.contains(all[i]) {
            let j = choose|j: int| 0 <= j < list.len() && list[j] == all[i];
            assert(list[j] < d.len());
        } else {
            let j = choose|j: int| 0 <= j < kids.len() && kids[j] == all[i];
            assert(kids[j] < e.len());
        }
    }
    lemma_rechilded_owns(e, p, all);
    assert forall|a: NodePtr, b: NodePtr| #[trigger] owns(rechilded(e, p, all), a, b) implies owns(
        d,
        a,
        b,
    ) || a == p && holds(d, c, b) by {
        if !owns(e, a, b) {
            if list.contains(b) {
                let j = choose|j: int| 0 <= j < list.len() && list[j] == b;
                assert(holds(d, c, list[j]));
            } else {
                lemma_child_is_owned(e, p, b);
            }
        }
    }
}

proof fn lemma_replaced_grows(d: DomView, p: NodePtr, new: NodePtr, old_child: NodePtr)
    requires
        closed_links(d),
        p < d.len(),
        new < d.len(),
        old_child < d.len(),
    ensures
        grown(d, replaced(d, p, new, old_child), p, new),
{
    assert(holds_within(d, new, new, 0));
    if is_fragment(d[new as int]) {
        let list = children_of(d[new as int]);
        let none = Seq::<NodePtr>::empty();
        let e = rechilded(d, new, none);
        let kids = children_of(e[p as int]);
        assert(node_ok(d[new as int], d.len()));
        lemma_rechilded_owns(d, new, none);
        assert(grown(d, e, p, new));
        assert forall|i: int| 0 <= i < list.len() implies (#[trigger] list[i]) < d.len() && holds(
            d,
            new,
            list[i],
        ) by {
            assert(list.contains(list[i]));
            lemma_child_is_owned(d, new, list[i]);
            lemma_holds_owned(d, new, new, list[i]);
        }
        if kids.contains(old_child) {
            lemma_substitution_grows(d, e, p, new, old_child, list);
            let f = rechilded(e, p, substituted(kids, old_child, list));
            lemma_adopted_owns(f, list, p);
            lemma_reparented_owns(adopted(f, list, p), old_child, None);
        }
    } else {
        let e = detached(d, new);
        let kids = children_of(e[p as int]);
        lemma_detached_owns(d, new);
        assert(grown(d, e, p, new));
        if kids.contains(old_child) {
            lemma_substitution_grows(d, e, p, new, old_child, seq![new]);
            let f = rechilded(e, p, substituted(kids, old_child, seq![new]));
            lemma_reparented_owns(f, new, Some(p));
            lemma_reparented_owns(reparented(f, new, Some(p)), old_child, None);
        }
    }
}

/// The nodes that a mutation puts below its target.
pub open spec fn moved_in(m: DomMutation) -> Seq<NodePtr> {
    match m {
        DomMutation::AppendChild { parent, child } => seq![child],
        DomMutation::PrependChild { parent, child } => seq![child],
        DomMutation::InsertBefore { parent, new_child, ref_child } => seq![new_child],
        DomMutation::ReplaceChild { parent, new_child, old_child } => seq![new_child],
        DomMutation::ReplaceChildren { node, children } => children@,
        _ => Seq::empty(),
    }
}

/// Whether a mutation puts no node below itself.
pub open spec fn keeps_order(d: DomView, m: DomMutation) -> bool {
    forall|i: int| 0 <= i < moved_in(m).len() ==> !holds(d, #[trigger] moved_in(m)[i], target_of(m))
}

/// A mutation keeps a document acyclic unless it puts a node below itself.
pub proof fn law_mutations_keep_documents_acyclic(d: DomView, m: DomMutation)
    requires
        acyclic(d),
        d.len() <= usize::MAX,
        names_nodes(d, m),
        keeps_order(d, m),
    ensures
        acyclic(changed_dom(d, m)),
        d.len() <= changed_dom(d, m).len(),
{
    let e = changed_dom(d, m);
    let t = target_of(m);
    assert(closed_links(d));
    match m {
        DomMutation::AppendChild { parent, child } => {
            assert(moved_in(m)[0] == child);
            law_moves_keep_documents_acyclic(d, parent, child, Place::End);
        },
        DomMutation::PrependChild { parent, child } => {
            assert(moved_in(m)[0] == child);
            law_moves_keep_documents_acyclic(d, parent, child, Place::Start);
        },
        DomMutation::InsertBefore { parent, new_child, ref_child } => {
            assert(moved_in(m)[0] == new_child);
            law_moves_keep_documents_acyclic(d, parent, new_child, place_before(ref_child));
        },
        DomMutation::ReplaceChild { parent, new_child, old_child } => {
            assert(moved_in(m)[0] == new_child);
            lemma_replaced_grows(d, parent, new_child, old_child);
            lemma_grown_is_acyclic(d, e, parent, new_child);
        },
        DomMutation::RemoveChild { parent, child } => {
            let kids = children_of(d[parent as int]);
            if kids.contains(child) {
                let kept = without(kids, child);
                assert(node_ok(d[parent as int], d.len()));
                assert(links_ok(kids, d.len()));
                lemma_without(kids, child);
                lemma_rechilded_owns(d, parent, kept);
                lemma_reparented_owns(rechilded(d, parent, kept), child, None);
                assert forall|a: NodePtr, b: NodePtr| #[trigger] owns(e, a, b) implies owns(
                    d,
                    a,
                    b,
                ) by {
                    assert(owns(rechilded(d, parent, kept), a, b));
                    if a == parent && kept.contains(b) {
                        lemma_child_is_owned(d, a, b);
                    }
                }
                lemma_new_links_stay_acyclic(d, e, t);
            }
        },
        DomMutation::ReplaceChildren { node, children } => {
            lemma_rechilded_owns(d, node, children@);
            assert forall|a: NodePtr, b: NodePtr| #[trigger] owns(e, a, b) implies owns(d, a, b)
                || a == node && (b >= d.len() || !holds(d, b, node)) by {
                if a == node && children@.contains(b) {
                    let i = choose|i: int| 0 <= i < children@.len() && children@[i] == b;
                    assert(!holds(d, moved_in(m)[i], node));
                }
            }
            lemma_new_links_stay_acyclic(d, e, t);
        },
        DomMutation::SetTextContent { node, text } => {
            if d[node as int] is Element {
                let f = d.push(NodeView::Text { content: text@, parent: None });
                let list = seq![d.len() as NodePtr];
                assert forall|i: int| 0 <= i < f.len() implies node_ok(#[trigger] f[i], f.len()) by {
                    if i < d.len() {
                        assert(node_ok(d[i], d.len()));
                        lemma_more_room(d[i], d.len(), f.len());
                    }
                }
                lemma_rechilded_owns(f, node, list);
                assert forall|a: NodePtr, b: NodePtr| #[trigger] owns(e, a, b) implies owns(
                    d,
                    a,
                    b,
                ) || a == node && (b >= d.len() || !holds(d, b, node)) by {
                    if a == node && list.contains(b) {
                        assert(b == d.len());
                    }
                }
                lemma_new_links_stay_acyclic(d, e, t);
            } else {
                lemma_same_links_stay_acyclic(d, e);
            }
        },
        _ => {
            lemma_same_links_stay_acyclic(d, e);
        },
    }
}

/// Links that are good in an arena are good in a larger one.
proof fn lemma_more_room(n: NodeView, len: nat, more: nat)
    requires
        node_ok(n, len),
        len <= more,
    ensures
        node_ok(n, more),
{
    match n {
        NodeView::Document { children, mode } => {
            assert forall|i: int| 0 <= i < children.len() implies #[trigger] children[i] < more by {}
        },
        NodeView::Element(el) => {
            assert forall|i: int| 0 <= i < el.children.len() implies #[trigger] el.children[i]
                < more by {}
            assert forall|i: int|
                0 <= i < el.assigned_nodes.len() implies #[trigger] el.assigned_nodes[i]
                < more by {}
        },
        _ => {},
    }
}

proof fn lemma_same_links_stay_acyclic(d: DomView, e: DomView)
    requires
        acyclic(d),
        e.len() == d.len(),
        forall|i: int| 0 <= i < d.len() ==> same_owner(d[i], #[trigger] e[i]),
    ensures
        acyclic(e),
{
    let layers = choose|layers: Seq<nat>| owner_layers(d, layers);
    assert forall|i: int| 0 <= i < e.len() implies node_ok(#[trigger] e[i], e.len()) by {
        assert(node_ok(d[i], d.len()));
        assert(same_owner(d[i], e[i]));
    }
    assert forall|a: NodePtr, b: NodePtr| #[trigger] owns(e, a, b) implies layers[b as int]
        < layers[a as int] by {
        assert(same_owner(d[a as int], e[a as int]));
        assert(owns(d, a, b));
    }
    assert(owner_layers(e, layers));
}

/// Whether two nodes have the same links.
spec fn same_owner(n: NodeView, o: NodeView) -> bool {
    match (n, o) {
        (NodeView::Element(a), NodeView::Element(b)) => {
            &&& a.children == b.children
            &&& a.assigned_nodes == b.assigned_nodes
            &&& a.template_contents == b.template_contents
            &&& a.shadow_root == b.shadow_root
            &&& a.parent == b.parent
        },
        (
            NodeView::Document { children, mode },
            NodeView::Document { children: kids, mode: other },
        ) => children == kids,
        (NodeView::Text { content, parent }, NodeView::Text { content: text, parent: p }) => parent
            == p,
        (
            NodeView::Comment { content, parent },
            NodeView::Comment { content: text, parent: p },
        ) => parent == p,
        _ => false,
    }
}

/// Linking a subtree keeps layers: it changes parent pointers only.
proof fn lemma_relinked_keeps_layers(d: DomView, layers: Seq<nat>, n: NodePtr, fuel: nat)
    requires
        owner_layers(d, layers),
        n < d.len(),
    ensures
        owner_layers(relinked(d, n, fuel), layers),
        relinked(d, n, fuel).len() == d.len(),
    decreases fuel, 1nat, 0nat,
{
    let list = followed(d[n as int], Reach::All);
    assert(node_ok(d[n as int], d.len()));
    assert forall|i: int| 0 <= i < list.len() implies #[trigger] list[i] < d.len() by {}
    lemma_relinked_all_keeps_layers(d, layers, list, n, fuel);
}

proof fn lemma_relinked_all_keeps_layers(
    d: DomView,
    layers: Seq<nat>,
    kids: Seq<NodePtr>,
    n: NodePtr,
    fuel: nat,
)
    requires
        owner_layers(d, layers),
        n < d.len(),
        links_ok(kids, d.len()),
    ensures
        owner_layers(relinked_all(d, kids, n, fuel), layers),
        relinked_all(d, kids, n, fuel).len() == d.len(),
    decreases fuel, 0nat, kids.len(),
{
    if kids.len() > 0 && fuel > 0 {
        assert forall|i: int| 0 <= i < kids.drop_last().len() implies #[trigger] kids.drop_last()[i]
            < d.len() by {
            assert(kids[i] < d.len());
        }
        assert(kids[kids.len() - 1] < d.len());
        lemma_relinked_all_keeps_layers(d, layers, kids.drop_last(), n, fuel);
        let f = relinked_all(d, kids.drop_last(), n, fuel);
        let e = reparented(f, kids.last(), Some(n));
        lemma_reparented_owns(f, kids.last(), Some(n));
        assert forall|a: NodePtr, b: NodePtr| #[trigger] owns(e, a, b) implies layers[b as int]
            < layers[a as int] by {
            assert(owns(f, a, b));
        }
        lemma_relinked_keeps_layers(e, layers, kids.last(), (fuel - 1) as nat);
    }
}

/// In an acyclic document every mutation can be applied that puts no node below
/// itself, as long as there are ids for all nodes; and the document is acyclic
/// afterwards.
pub proof fn law_acyclic_documents_can_be_mutated(v: RegistryView, d: DomView, m: DomMutation)
    requires
        acyclic(d),
        d.len() <= usize::MAX,
        names_nodes(d, m),
        keeps_order(d, m),
        next_after(v.ids, d.len()) < u32::MAX,
    ensures
        can_mutate(v, d, m),
        acyclic(linked_dom(d, m)),
{
    let changed = changed_dom(d, m);
    let linked = linked_dom(d, m);
    law_mutations_keep_documents_acyclic(d, m);
    let layers = choose|layers: Seq<nat>| owner_layers(changed, layers);
    if clears(changed, m) {
        lemma_relinked_keeps_layers(changed, layers, target_of(m), changed.len());
    }
    assert(owner_layers(linked, layers));
    lemma_named_nodes(d, m);
    let out = walk_roots(v, leaving(d, m));
    let back = walk_roots(v, entering(d, m, inserted_by(d, m)));
    assert(node_ok(d[target_of(m) as int], d.len()));
    assert forall|i: int| 0 <= i < out.len() implies finite_from(
        d,
        #[trigger] out[i],
        Reach::All,
    ) by {
        assert(leaving(d, m)[leaving(d, m).len() - 1 - i] == out[i]);
        assert(out[i] < d.len());
        law_acyclic_walks_end(d, out[i], Reach::All);
    }
    assert forall|i: int| 0 <= i < back.len() implies finite_from(
        linked,
        #[trigger] back[i],
        Reach::All,
    ) by {
        let list = entering(d, m, inserted_by(d, m));
        assert(list[list.len() - 1 - i] == back[i]);
        assert(back[i] < d.len());
        law_acyclic_walks_end(linked, back[i], Reach::All);
    }
    law_acyclic_walks_end(changed, target_of(m), Reach::All);
}

fn all_in_range(dom: &Dom, list: &Vec<NodePtr>) -> (res: bool)
    ensures
        res == links_ok(list@, dom@.len()),
{
    let mut i: usize = 0;
    while i < list.len()
        invariant
            i <= list.len(),
            forall|j: int| 0 <= j < i ==> #[trigger] list@[j] < dom@.len(),
        decreases list.len() - i,
    {
        if list[i] >= dom.len() {
            assert(!links_ok(list@, dom@.len()));
            return false;
        }
        i = i + 1;
    }
    true
}

/// Whether every pointer of a mutation names a node.
pub fn names_only_nodes(dom: &Dom, m: &DomMutation) -> (res: bool)
    ensures
        res == names_nodes(dom@, *m),
{
    if target_of_mutation(m) >= dom.len() {
        return false;
    }
    match m {
        DomMutation::AppendChild { child, .. } => *child < dom.len(),
        DomMutation::PrependChild { child, .. } => *child < dom.len(),
        DomMutation::InsertBefore { new_child, .. } => *new_child < dom.len(),
        DomMutation::RemoveChild { child, .. } => *child < dom.len(),
        DomMutation::ReplaceChild { parent, new_child, old_child } => {
            if *new_child >= dom.len() || *old_child >= dom.len() {
                return false;
            }
            !(is_document_fragment(dom, *new_child) && *new_child != *parent && is_direct_child(
                dom,
                *parent,
                *old_child,
            ) && is_direct_child(dom, *new_child, *parent))
        },
        DomMutation::ReplaceChildren { children, .. } => all_in_range(dom, children),
        _ => true,
    }
}

fn moved_nodes(m: &DomMutation) -> (res: Vec<NodePtr>)
    ensures
        res@ == moved_in(*m),
{
    let mut res: Vec<NodePtr> = Vec::new();
    match m {
        DomMutation::AppendChild { child, .. } => {
            res.push(*child);
        },
        DomMutation::PrependChild { child, .. } => {
            res.push(*child);
        },
        DomMutation::InsertBefore { new_child, .. } => {
            res.push(*new_child);
        },
        DomMutation::ReplaceChild { new_child, .. } => {
            res.push(*new_child);
        },
        DomMutation::ReplaceChildren { children, .. } => {
            return copy_list(children);
        },
        _ => {},
    }
    assert(res@ =~= moved_in(*m));
    res
}

/// Whether a mutation names nodes of an acyclic document and puts none of them
/// below itself.
pub fn keeps_acyclic(dom: &Dom, m: &DomMutation) -> (res: bool)
    requires
        dom.wf(),
    ensures
        res == (acyclic(dom@) && names_nodes(dom@, *m) && keeps_order(dom@, *m)),
{
    if !is_acyclic(dom) || !names_only_nodes(dom, m) {
        return false;
    }
    let moved = moved_nodes(m);
    let target = target_of_mutation(m);
    proof {
        assert forall|j: int| 0 <= j < moved@.len() implies #[trigger] moved@[j] < dom@.len() by {}
    }
    let mut i: usize = 0;
    while i < moved.len()
        invariant
            i <= moved.len(),
            dom.wf(),
            acyclic(dom@),
            target == target_of(*m),
            moved@ == moved_in(*m),
            forall|j: int| 0 <= j < moved@.len() ==> #[trigger] moved@[j] < dom@.len(),
            forall|j: int| 0 <= j < i ==> !holds(dom@, #[trigger] moved@[j], target),
        decreases moved.len() - i,
    {
        proof {
            law_acyclic_walks_end(dom@, moved@[i as int], Reach::All);
        }
        if is_held(dom, moved[i], target) {
            assert(holds(dom@, moved_in(*m)[i as int], target_of(*m)));
            return false;
        }
        i = i + 1;
    }
    true
}

} // verus!
