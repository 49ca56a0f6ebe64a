//! What mutations of the tree do, seen from outside.

use crate::dom::node::{children_of, ends_within, finite_from, followed, is_container, parent_of,
    with_children, DomView, NodePtr, NodeView, Reach};
use crate::dom::routes::{above, arrival, child_lists, gathered, gathered_all, lemma_above_parent,
    lemma_gathered_lists_all, lemma_routes_end, lists_all};
use crate::js::mutation::{holds_node, lemma_filter_is_without, lemma_without_nothing, reaches,
    removed, text_of, text_of_all, with_text};
use vstd::prelude::*;

verus! {

/// A child that is removed is gone from the child list and has no parent. The
/// other children keep their order, and nothing else changes. Nothing changes at
/// all where the node is no child.
pub proof fn law_removal_takes_out_the_child(d: DomView, p: NodePtr, c: NodePtr)
    requires
        p < d.len(),
        c < d.len(),
        c != p,
    ensures
        ({
            let e = removed(d, p, c);
            &&& children_of(e[p as int]) == children_of(d[p as int]).filter(|x: NodePtr| x != c)
            &&& e[p as int] == with_children(d[p as int], children_of(e[p as int]))
            &&& children_of(e[c as int]) == children_of(d[c as int])
            &&& if children_of(d[p as int]).contains(c) {
                parent_of(e[c as int]) is None
            } else {
                e == d
            }
            &&& e.len() == d.len()
            &&& forall|n: NodePtr|
                n < d.len() && n != p && n != c ==> #[trigger] e[n as int] == d[n as int]
        }),
{
    let all = children_of(d[p as int]);
    lemma_filter_is_without(all, c);
    if !all.contains(c) {
        lemma_without_nothing(all, c);
    }
    assert(with_children(d[p as int], all) == d[p as int]);
}

/// The text of a container is that of all text nodes below it, at every depth,
/// in document order. Comments say nothing there, and character data is its own
/// text.
pub proof fn law_text_is_that_of_all_text_nodes(d: DomView, n: NodePtr)
    requires
        finite_from(d, n, Reach::Children),
    ensures
        match d[n as int] {
            NodeView::Text { content, parent } => text_of(d, n, d.len()) == content,
            NodeView::Comment { content, parent } => text_of(d, n, d.len()) == content,
            _ => lists_all(
                |m: NodePtr|
                    match d[m as int] {
                        NodeView::Text { content, parent } => content,
                        _ => Seq::empty(),
                    },
                child_lists(d),
                n,
                text_of(d, n, d.len()),
            ),
        },
{
    if is_container(d[n as int]) {
        lemma_routes_end(d, child_lists(d), n, Reach::Children, d.len());
        lemma_gathered_lists_all(own_text(d), child_lists(d), n, d.len());
        lemma_text_gathered(d, n, d.len());
    }
}

spec fn own_text(d: DomView) -> spec_fn(NodePtr) -> Seq<char> {
    |m: NodePtr|
        match d[m as int] {
            NodeView::Text { content, parent } => content,
            _ => Seq::empty(),
        }
}

proof fn lemma_text_gathered(d: DomView, n: NodePtr, fuel: nat)
    ensures
        gathered(own_text(d), child_lists(d), n, fuel) == (if d[n as int] is Comment {
            Seq::empty()
        } else {
            text_of(d, n, fuel)
        }),
    decreases fuel, 1nat, 0nat,
{
    let all = gathered(own_text(d), child_lists(d), n, fuel);
    lemma_text_gathered_all(d, child_lists(d)(n), fuel);
    match d[n as int] {
        NodeView::Text { content, parent } => {
            assert(all =~= content);
        },
        NodeView::Comment { content, parent } => {
            assert(all =~= Seq::<char>::empty());
        },
        NodeView::Element(el) => {
            assert(all =~= text_of(d, n, fuel));
        },
        NodeView::Document { children, mode } => {
            assert(all =~= text_of(d, n, fuel));
        },
    }
}

proof fn lemma_text_gathered_all(d: DomView, kids: Seq<NodePtr>, fuel: nat)
    ensures
        gathered_all(own_text(d), child_lists(d), kids, fuel) == text_of_all(d, kids, fuel),
    decreases fuel, 0nat, kids.len(),
{
    if kids.len() > 0 && fuel > 0 {
        lemma_text_gathered_all(d, kids.drop_last(), fuel);
        lemma_text_gathered(d, kids.last(), (fuel - 1) as nat);
    }
}

/// The text that a node is given is its text from then on. An element holds it
/// in a single new text node; a document keeps what it has.
pub proof fn law_text_that_was_set_is_read_back(d: DomView, n: NodePtr, text: Seq<char>, fuel: nat)
    requires
        n < d.len() < usize::MAX,
        fuel > 0,
    ensures
        ({
            let e = with_text(d, n, text);
            &&& d[n as int] is Document ==> e == d
            &&& !(d[n as int] is Document) ==> text_of(e, n, fuel) == text
            &&& d[n as int] is Element ==> {
                &&& e.len() == d.len() + 1
                &&& children_of(e[n as int]) == seq![d.len() as NodePtr]
                &&& e[d.len() as int] == (NodeView::Text { content: text, parent: None })
                &&& e[n as int] == with_children(d[n as int], children_of(e[n as int]))
            }
            &&& !(d[n as int] is Element) ==> e.len() == d.len()
            &&& forall|m: NodePtr| m < d.len() && m != n ==> #[trigger] e[m as int] == d[m as int]
        }),
{
    let e = with_text(d, n, text);
    if d[n as int] is Element {
        let kids = seq![d.len() as NodePtr];
        assert(kids.drop_last() =~= Seq::<NodePtr>::empty());
        assert(text_of_all(e, kids.drop_last(), fuel) =~= Seq::<char>::empty());
        assert(kids.last() == d.len() as NodePtr);
        assert(e[kids.last() as int] == (NodeView::Text { content: text, parent: None }));
        assert(text_of(e, kids.last(), (fuel - 1) as nat) == text);
        assert(text_of_all(e, kids, fuel) =~= text);
    }
    if d[n as int] is Document {
        assert(e =~= d);
    }
}

/// A node holds exactly what a route through child lists leads to.
pub proof fn law_containment_is_descent(d: DomView, n: NodePtr, other: NodePtr)
    requires
        finite_from(d, n, Reach::Children),
    ensures
        holds_node(d, n, other, d.len()) <==> exists|route: Seq<int>| #[trigger]
            arrival(child_lists(d), n, route) == Some(other),
{
    if holds_node(d, n, other, d.len()) {
        let route = lemma_held_route(d, n, other, d.len());
        assert(arrival(child_lists(d), n, route) == Some(other));
    }
    if exists|route: Seq<int>| #[trigger] arrival(child_lists(d), n, route) == Some(other) {
        let route = choose|route: Seq<int>| #[trigger]
            arrival(child_lists(d), n, route) == Some(other);
        lemma_route_held(d, n, other, route, d.len());
    }
}

proof fn lemma_held_route(d: DomView, n: NodePtr, other: NodePtr, fuel: nat) -> (route: Seq<int>)
    requires
        holds_node(d, n, other, fuel),
    ensures
        arrival(child_lists(d), n, route) == Some(other),
    decreases fuel,
{
    if n == other {
        Seq::empty()
    } else {
        let kids = children_of(d[n as int]);
        let i = choose|i: int|
            0 <= i < kids.len() && holds_node(d, #[trigger] kids[i], other, (fuel - 1) as nat);
        let rest = lemma_held_route(d, kids[i], other, (fuel - 1) as nat);
        let route = seq![i] + rest;
        assert(route.drop_first() =~= rest);
        route
    }
}

proof fn lemma_route_held(d: DomView, n: NodePtr, other: NodePtr, route: Seq<int>, fuel: nat)
    requires
        ends_within(d, n, Reach::Children, fuel),
        arrival(child_lists(d), n, route) == Some(other),
    ensures
        holds_node(d, n, other, fuel),
    decreases route.len(),
{
    if route.len() > 0 {
        let kids = children_of(d[n as int]);
        assert(followed(d[n as int], Reach::Children) == kids);
        let kid = kids[route[0]];
        assert(ends_within(d, kid, Reach::Children, (fuel - 1) as nat));
        lemma_route_held(d, kid, other, route.drop_first(), (fuel - 1) as nat);
        assert(holds_node(d, kids[route[0]], other, (fuel - 1) as nat));
    }
}

/// A node is connected to a document exactly if the document is one of the nodes
/// met by going from parent to parent, within the given number of nodes.
pub proof fn law_connection_is_ancestry(d: DomView, document: NodePtr, n: NodePtr, steps: nat)
    ensures
        reaches(d, document, n, steps) <==> exists|k: nat|
            k < steps && #[trigger] above(d, n, k) == Some(document),
    decreases steps,
{
    if steps > 0 {
        let less = (steps - 1) as nat;
        assert(above(d, n, 0) == Some(n));
        if let Some(p) = parent_of(d[n as int]) {
            law_connection_is_ancestry(d, document, p, less);
            if reaches(d, document, p, less) {
                let k = choose|k: nat| k < less && #[trigger] above(d, p, k) == Some(document);
                lemma_above_parent(d, n, k + 1);
                assert(above(d, n, k + 1) == Some(document));
            }
        }
        if exists|k: nat| k < steps && #[trigger] above(d, n, k) == Some(document) {
            let k = choose|k: nat| k < steps && #[trigger] above(d, n, k) == Some(document);
            if k > 0 {
                lemma_above_parent(d, n, k);
                let p = parent_of(d[n as int])->0;
                assert(above(d, p, (k - 1) as nat) == Some(document));
            }
        }
    }
}

} // verus!
