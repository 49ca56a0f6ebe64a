//! What searches find.

use crate::dom::node::{finite_from, followed, DomView, NodePtr, NodeView, Reach};
use crate::dom::routes::{arrival, child_lists, earlier, gathered, gathered_all,
    lemma_gathered_lists_all, lemma_routes_end, listed, lists_all, routes_end, tours, Below};
use crate::js::query::{first_match, preorder, preorder_all, scanned_parent, scanned_parent_among};
use vstd::prelude::*;

verus! {

/// Each node on its own.
pub open spec fn alone() -> spec_fn(NodePtr) -> Seq<NodePtr> {
    |m: NodePtr| seq![m]
}

/// A walk over a node and its descendants meets every occurrence of a node at or
/// below it, at every depth, once and in document order.
pub proof fn law_descendants_are_in_document_order(d: DomView, n: NodePtr)
    requires
        finite_from(d, n, Reach::Children),
    ensures
        lists_all(alone(), child_lists(d), n, preorder(d, n, d.len())),
{
    lemma_routes_end(d, child_lists(d), n, Reach::Children, d.len());
    lemma_gathered_lists_all(alone(), child_lists(d), n, d.len());
    lemma_preorder_gathered(d, n, d.len());
}

proof fn lemma_preorder_gathered(d: DomView, n: NodePtr, fuel: nat)
    ensures
        preorder(d, n, fuel) == gathered(alone(), child_lists(d), n, fuel),
    decreases fuel, 1nat, 0nat,
{
    lemma_preorder_gathered_all(d, child_lists(d)(n), fuel);
}

proof fn lemma_preorder_gathered_all(d: DomView, kids: Seq<NodePtr>, fuel: nat)
    ensures
        preorder_all(d, kids, fuel) == gathered_all(alone(), child_lists(d), kids, fuel),
    decreases fuel, 0nat, kids.len(),
{
    if kids.len() > 0 && fuel > 0 {
        lemma_preorder_gathered_all(d, kids.drop_last(), fuel);
        lemma_preorder_gathered(d, kids.last(), (fuel - 1) as nat);
    }
}

/// The routes behind a list of nodes that holds each node on its own.
proof fn lemma_one_by_one(below: Below, n: NodePtr, list: Seq<NodePtr>) -> (routes: Seq<Seq<int>>)
    requires
        lists_all(alone(), below, n, list),
    ensures
        tours(below, n, routes),
        routes.len() == list.len(),
        forall|i: int|
            0 <= i < list.len() ==> arrival(below, n, #[trigger] routes[i]) == Some(list[i]),
{
    let routes = choose|routes: Seq<Seq<int>>| #[trigger]
        tours(below, n, routes) && list == listed(alone(), below, n, routes);
    let f = |r: Seq<int>| alone()(arrival(below, n, r)->0);
    let g = |r: Seq<int>| arrival(below, n, r)->0;
    lemma_flat(routes, f, g);
    assert(list == routes.map_values(g));
    assert forall|i: int| 0 <= i < list.len() implies arrival(below, n, #[trigger] routes[i])
        == Some(list[i]) by {
        assert(routes.map_values(g)[i] == g(routes[i]));
    }
    routes
}

proof fn lemma_flat(
    routes: Seq<Seq<int>>,
    f: spec_fn(Seq<int>) -> Seq<NodePtr>,
    g: spec_fn(Seq<int>) -> NodePtr,
)
    requires
        forall|r: Seq<int>| #[trigger] f(r) == seq![g(r)],
    ensures
        routes.map_values(f).flatten() == routes.map_values(g),
    decreases routes.len(),
{
    let blocks = routes.map_values(f);
    if routes.len() == 0 {
        assert(blocks.flatten() =~= routes.map_values(g));
    } else {
        lemma_flat(routes.drop_first(), f, g);
        assert(blocks.drop_first() =~= routes.drop_first().map_values(f));
        assert(blocks.first() == f(routes[0]));
        assert(blocks.flatten() == blocks.first() + blocks.drop_first().flatten());
        assert(blocks.flatten() =~= routes.map_values(g));
    }
}

/// Whether a route from `n` leads to a node that satisfies `p`.
pub open spec fn leads_to(
    d: DomView,
    n: NodePtr,
    route: Seq<int>,
    p: spec_fn(NodePtr) -> bool,
) -> bool {
    arrival(child_lists(d), n, route) matches Some(m) && p(m)
}

/// The first match among the descendants is the one on the earliest route; there
/// is none only where no route leads to one.
pub proof fn law_first_match_is_the_earliest(
    d: DomView,
    n: NodePtr,
    p: spec_fn(NodePtr) -> bool,
    found: Option<NodePtr>,
)
    requires
        finite_from(d, n, Reach::Children),
        found == first_match(preorder(d, n, d.len()), p),
    ensures
        match found {
            Some(m) => exists|route: Seq<int>| #[trigger]
                leads_to(d, n, route, p) && arrival(child_lists(d), n, route) == Some(m) && forall|
                    other: Seq<int>,
                | #[trigger]
                    leads_to(d, n, other, p) && other != route ==> earlier(route, other),
            None => forall|route: Seq<int>| !#[trigger] leads_to(d, n, route, p),
        },
{
    let below = child_lists(d);
    let list = preorder(d, n, d.len());
    law_descendants_are_in_document_order(d, n);
    let routes = lemma_one_by_one(below, n, list);
    lemma_first_match(list, p);
    match found {
        Some(m) => {
            let i = choose|i: int|
                0 <= i < list.len() && list[i] == m && p(m) && forall|j: int|
                    0 <= j < i ==> !p(#[trigger] list[j]);
            let route = routes[i];
            assert(leads_to(d, n, route, p));
            assert forall|other: Seq<int>| #[trigger]
                leads_to(d, n, other, p) && other != route implies earlier(route, other) by {
                assert(routes.contains(other));
                let j = choose|j: int| 0 <= j < routes.len() && routes[j] == other;
                assert(arrival(below, n, routes[j]) == Some(list[j]));
                assert(i < j);
            }
        },
        None => {
            assert forall|route: Seq<int>| !#[trigger] leads_to(d, n, route, p) by {
                if leads_to(d, n, route, p) {
                    assert(routes.contains(route));
                    let j = choose|j: int| 0 <= j < routes.len() && routes[j] == route;
                    assert(arrival(below, n, routes[j]) == Some(list[j]));
                    assert(!p(list[j]));
                }
            }
        },
    }
}

proof fn lemma_first_match(s: Seq<NodePtr>, p: spec_fn(NodePtr) -> bool)
    ensures
        match first_match(s, p) {
            Some(m) => exists|i: int|
                0 <= i < s.len() && s[i] == m && p(m) && forall|j: int|
                    0 <= j < i ==> !p(#[trigger] s[j]),
            None => forall|j: int| 0 <= j < s.len() ==> !p(#[trigger] s[j]),
        },
    decreases s.len(),
{
    if s.len() > 0 && !p(s[0]) {
        let rest = s.drop_first();
        lemma_first_match(rest, p);
        match first_match(s, p) {
            Some(m) => {
                let i = choose|i: int|
                    0 <= i < rest.len() && rest[i] == m && p(m) && forall|j: int|
                        0 <= j < i ==> !p(#[trigger] rest[j]);
                assert forall|j: int| 0 <= j < i + 1 implies !p(#[trigger] s[j]) by {
                    if j > 0 {
                        assert(s[j] == rest[j - 1]);
                    }
                }
                assert(s[i + 1] == m);
            },
            None => {
                assert forall|j: int| 0 <= j < s.len() implies !p(#[trigger] s[j]) by {
                    if j > 0 {
                        assert(s[j] == rest[j - 1]);
                    }
                }
            },
        }
    } else if s.len() > 0 {
        assert(s[0] == first_match(s, p)->0);
    }
}

/// What a node owns: its children, and behind them its template contents.
pub open spec fn owned_lists(d: DomView) -> Below {
    |m: NodePtr|
        match d[m as int] {
            NodeView::Document { children, mode } => children,
            NodeView::Element(el) => match el.template_contents {
                Some(contents) => el.children.push(contents),
                None => el.children,
            },
            _ => Seq::empty(),
        }
}

/// The search for an owner finds one at or below the root, however deep, inside
/// template contents too; it finds none only where there is none.
pub proof fn law_owners_are_found(d: DomView, root: NodePtr, target: NodePtr)
    requires
        finite_from(d, root, Reach::Inert),
    ensures
        match scanned_parent(d, root, target, d.len()) {
            Some(p) => owned_lists(d)(p).contains(target) && exists|route: Seq<int>| #[trigger]
                arrival(owned_lists(d), root, route) == Some(p),
            None => forall|route: Seq<int>|
                (#[trigger] arrival(owned_lists(d), root, route)) matches Some(p)
                    ==> !owned_lists(d)(p).contains(target),
        },
{
    let below = owned_lists(d);
    assert forall|m: NodePtr, i: int| m < d.len() && 0 <= i < below(m).len() implies followed(
        d[m as int],
        Reach::Inert,
    ).contains(#[trigger] below(m)[i]) by {
        assert(followed(d[m as int], Reach::Inert) =~= below(m));
    }
    lemma_routes_end(d, below, root, Reach::Inert, d.len());
    lemma_owner_found(d, root, target, d.len());
}

proof fn lemma_owner_found(d: DomView, root: NodePtr, target: NodePtr, fuel: nat)
    requires
        routes_end(owned_lists(d), root, fuel),
    ensures
        match scanned_parent(d, root, target, fuel) {
            Some(p) => owned_lists(d)(p).contains(target) && exists|route: Seq<int>| #[trigger]
                arrival(owned_lists(d), root, route) == Some(p),
            None => forall|route: Seq<int>|
                (#[trigger] arrival(owned_lists(d), root, route)) matches Some(p)
                    ==> !owned_lists(d)(p).contains(target),
        },
    decreases fuel, 1nat, 0nat,
{
    let below = owned_lists(d);
    let kids = below(root);
    assert(kids =~= followed(d[root as int], Reach::Inert));
    assert(kids.take(kids.len() as int) =~= kids);
    lemma_owner_found_among(d, root, kids.len() as int, target, fuel);
    match scanned_parent(d, root, target, fuel) {
        Some(p) => {
            if p == root && kids.contains(target) {
                assert(arrival(below, root, Seq::<int>::empty()) == Some(p));
            } else {
                let (i, r) = choose|i: int, r: Seq<int>|
                    0 <= i < kids.len() && #[trigger] arrival(below, kids[i], r) == Some(p);
                let route = seq![i] + r;
                assert(route.drop_first() =~= r);
                assert(arrival(below, root, route) == Some(p));
            }
        },
        None => {
            assert forall|route: Seq<int>|
                (#[trigger] arrival(below, root, route)) matches Some(p) implies !below(
                arrival(below, root, route)->0,
            ).contains(target) by {
                if route.len() > 0 {
                    assert(arrival(below, kids[route[0]], route.drop_first()) == arrival(
                        below,
                        root,
                        route,
                    ));
                } else if kids.contains(target) {
                    let i = choose|i: int| 0 <= i < kids.len() && kids[i] == target;
                    assert(kids[i] != target);
                }
            }
        },
    }
}

proof fn lemma_owner_found_among(d: DomView, root: NodePtr, n: int, target: NodePtr, fuel: nat)
    requires
        routes_end(owned_lists(d), root, fuel),
        0 <= n <= owned_lists(d)(root).len(),
    ensures
        ({
            let below = owned_lists(d);
            let kids = below(root);
            match scanned_parent_among(d, kids.take(n), root, target, fuel) {
                Some(p) => {
                    &&& below(p).contains(target)
                    &&& (p == root && kids.contains(target)) || exists|i: int, r: Seq<int>|
                        0 <= i < n && #[trigger] arrival(below, kids[i], r) == Some(p)
                },
                None => forall|i: int|
                    0 <= i < n ==> #[trigger] kids[i] != target && forall|r: Seq<int>|
                        (#[trigger] arrival(below, kids[i], r)) matches Some(p) ==> !below(
                            p,
                        ).contains(target),
            }
        }),
    decreases fuel, 0nat, n,
{
    let below = owned_lists(d);
    let kids = below(root);
    if n > 0 {
        lemma_owner_found_among(d, root, n - 1, target, fuel);
        assert(kids.take(n).drop_last() =~= kids.take(n - 1));
        assert(kids.take(n).last() == kids[n - 1]);
        assert(routes_end(below, kids[n - 1], (fuel - 1) as nat));
        lemma_owner_found(d, kids[n - 1], target, (fuel - 1) as nat);
    }
}

} // verus!
