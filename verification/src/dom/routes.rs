//! Routes through a tree, and what walks list of it.
//!
//! A route says which way to turn at each node on the way down: it is the list of
//! positions, in one child list after the other. Routes lead to every occurrence
//! of a node below another, and their order is document order. Walks are held to
//! that: what they list is what stands at the end of the routes, one after the
//! other, and no route is left out or taken twice.

use crate::dom::node::{ends_within, followed, parent_of, DomView, NodePtr, NodeView, Reach};
use vstd::prelude::*;

verus! {

/// Which nodes are directly below a node.
pub type Below = spec_fn(NodePtr) -> Seq<NodePtr>;

/// The child lists of a document.
pub open spec fn child_lists(d: DomView) -> Below {
    |m: NodePtr|
        match d[m as int] {
            NodeView::Document { children, mode } => children,
            NodeView::Element(el) => el.children,
            _ => Seq::empty(),
        }
}

/// Where a route from `n` leads; nowhere if it turns where there is no way.
pub open spec fn arrival(below: Below, n: NodePtr, route: Seq<int>) -> Option<NodePtr>
    decreases route.len(),
{
    if route.len() == 0 {
        Some(n)
    } else if 0 <= route[0] < below(n).len() {
        arrival(below, below(n)[route[0]], route.drop_first())
    } else {
        None
    }
}

/// Whether a route comes before another: it is the beginning of the other, or
/// turns off earlier where they part.
pub open spec fn earlier(a: Seq<int>, b: Seq<int>) -> bool {
    exists|k: int|
        0 <= k <= a.len() && k < b.len() && #[trigger] a.take(k) == b.take(k) && (k == a.len()
            || a[k] < b[k])
}

/// Whether a list holds the routes from `n`: all of them, in order, each once.
pub open spec fn tours(below: Below, n: NodePtr, routes: Seq<Seq<int>>) -> bool {
    &&& forall|i: int| 0 <= i < routes.len() ==> arrival(below, n, #[trigger] routes[i]) is Some
    &&& forall|i: int, j: int|
        0 <= i < j < routes.len() ==> earlier(#[trigger] routes[i], #[trigger] routes[j])
    &&& forall|r: Seq<int>| #[trigger] arrival(below, n, r) is Some ==> routes.contains(r)
}

/// What stands at the ends of routes, one after the other.
pub open spec fn listed<T>(
    own: spec_fn(NodePtr) -> Seq<T>,
    below: Below,
    n: NodePtr,
    routes: Seq<Seq<int>>,
) -> Seq<T> {
    routes.map_values(|r: Seq<int>| own(arrival(below, n, r)->0)).flatten()
}

/// Whether a list is what stands at the ends of all routes from `n`, in document
/// order.
pub open spec fn lists_all<T>(
    own: spec_fn(NodePtr) -> Seq<T>,
    below: Below,
    n: NodePtr,
    list: Seq<T>,
) -> bool {
    exists|routes: Seq<Seq<int>>| #[trigger]
        tours(below, n, routes) && list == listed(own, below, n, routes)
}

/// Whether every route from `n` has at most `fuel` nodes on it.
pub open spec fn routes_end(below: Below, n: NodePtr, fuel: nat) -> bool
    decreases fuel,
{
    fuel > 0 && forall|i: int|
        0 <= i < below(n).len() ==> routes_end(below, #[trigger] below(n)[i], (fuel - 1) as nat)
}

/// What a walk that takes a node before what is below it lists.
pub open spec fn gathered<T>(
    own: spec_fn(NodePtr) -> Seq<T>,
    below: Below,
    n: NodePtr,
    fuel: nat,
) -> Seq<T>
    decreases fuel, 1nat, 0nat,
{
    own(n) + gathered_all(own, below, below(n), fuel)
}

/// What such a walk lists of the nodes of a list.
pub open spec fn gathered_all<T>(
    own: spec_fn(NodePtr) -> Seq<T>,
    below: Below,
    kids: Seq<NodePtr>,
    fuel: nat,
) -> Seq<T>
    decreases fuel, 0nat, kids.len(),
{
    if kids.len() == 0 || fuel == 0 {
        Seq::empty()
    } else {
        gathered_all(own, below, kids.drop_last(), fuel) + gathered(
            own,
            below,
            kids.last(),
            (fuel - 1) as nat,
        )
    }
}

spec fn turned(i: int, routes: Seq<Seq<int>>) -> Seq<Seq<int>> {
    routes.map_values(|r: Seq<int>| seq![i] + r)
}

spec fn tour(below: Below, n: NodePtr, fuel: nat) -> Seq<Seq<int>>
    decreases fuel, 1nat, 0nat,
{
    seq![Seq::<int>::empty()] + tour_to(below, n, below(n).len(), fuel)
}

spec fn tour_to(below: Below, n: NodePtr, k: nat, fuel: nat) -> Seq<Seq<int>>
    decreases fuel, 0nat, k,
{
    if k == 0 || fuel == 0 {
        Seq::empty()
    } else {
        tour_to(below, n, (k - 1) as nat, fuel) + turned(
            k - 1,
            tour(below, below(n)[k - 1], (fuel - 1) as nat),
        )
    }
}

proof fn lemma_earlier_below(i: int, a: Seq<int>, b: Seq<int>)
    requires
        earlier(a, b),
    ensures
        earlier(seq![i] + a, seq![i] + b),
{
    let k = choose|k: int|
        0 <= k <= a.len() && k < b.len() && #[trigger] a.take(k) == b.take(k) && (k == a.len()
            || a[k] < b[k]);
    let (x, y) = (seq![i] + a, seq![i] + b);
    assert(x.take(k + 1) =~= seq![i] + a.take(k));
    assert(y.take(k + 1) =~= seq![i] + b.take(k));
    assert(x.take(k + 1) == y.take(k + 1));
}

proof fn lemma_earlier_beside(i: int, a: Seq<int>, j: int, b: Seq<int>)
    requires
        i < j,
    ensures
        earlier(seq![i] + a, seq![j] + b),
{
    let (x, y) = (seq![i] + a, seq![j] + b);
    assert(x.take(0) =~= y.take(0));
}

proof fn lemma_earlier_above(b: Seq<int>)
    requires
        b.len() > 0,
    ensures
        earlier(Seq::<int>::empty(), b),
{
    assert(Seq::<int>::empty().take(0) =~= b.take(0));
}

proof fn lemma_tour(below: Below, n: NodePtr, fuel: nat)
    requires
        routes_end(below, n, fuel),
    ensures
        tours(below, n, tour(below, n, fuel)),
    decreases fuel, 1nat, 0nat,
{
    let kids = below(n);
    let rest = tour_to(below, n, kids.len(), fuel);
    let all = tour(below, n, fuel);
    lemma_tour_to(below, n, kids.len(), fuel);
    assert forall|i: int| 0 <= i < all.len() implies arrival(below, n, #[trigger] all[i]) is Some by {
        if i > 0 {
            assert(all[i] == rest[i - 1]);
        }
    }
    assert forall|i: int, j: int| 0 <= i < j < all.len() implies earlier(
        #[trigger] all[i],
        #[trigger] all[j],
    ) by {
        assert(all[j] == rest[j - 1]);
        if i > 0 {
            assert(all[i] == rest[i - 1]);
        } else {
            lemma_earlier_above(all[j]);
        }
    }
    assert forall|r: Seq<int>| #[trigger] arrival(below, n, r) is Some implies all.contains(r) by {
        if r.len() == 0 {
            assert(r =~= Seq::<int>::empty());
            assert(all[0] == r);
        } else {
            assert(rest.contains(r));
            let i = choose|i: int| 0 <= i < rest.len() && rest[i] == r;
            assert(all[i + 1] == r);
        }
    }
}

proof fn lemma_tour_to(below: Below, n: NodePtr, k: nat, fuel: nat)
    requires
        routes_end(below, n, fuel),
        k <= below(n).len(),
    ensures
        ({
            let rest = tour_to(below, n, k, fuel);
            &&& forall|i: int|
                0 <= i < rest.len() ==> (#[trigger] rest[i]).len() > 0 && 0 <= rest[i][0] < k
                    && arrival(below, n, rest[i]) is Some
            &&& forall|i: int, j: int|
                0 <= i < j < rest.len() ==> earlier(#[trigger] rest[i], #[trigger] rest[j])
            &&& forall|r: Seq<int>|
                r.len() > 0 && r[0] < k && #[trigger] arrival(below, n, r) is Some
                    ==> rest.contains(r)
        }),
    decreases fuel, 0nat, k,
{
    if k > 0 {
        let less = (k - 1) as nat;
        let front = tour_to(below, n, less, fuel);
        lemma_tour_to(below, n, less, fuel);
        let kid = below(n)[k - 1];
        assert(routes_end(below, kid, (fuel - 1) as nat));
        lemma_tour(below, kid, (fuel - 1) as nat);
        let inner = tour(below, kid, (fuel - 1) as nat);
        let back = turned(k - 1, inner);
        let rest = tour_to(below, n, k, fuel);
        assert(rest == front + back);
        assert forall|i: int| 0 <= i < rest.len() implies (#[trigger] rest[i]).len() > 0 && 0
            <= rest[i][0] < k && arrival(below, n, rest[i]) is Some by {
            if i < front.len() {
                assert(rest[i] == front[i]);
            } else {
                let r = inner[i - front.len()];
                assert(rest[i] == seq![k - 1] + r);
                assert(rest[i].drop_first() =~= r);
            }
        }
        assert forall|i: int, j: int| 0 <= i < j < rest.len() implies earlier(
            #[trigger] rest[i],
            #[trigger] rest[j],
        ) by {
            if j < front.len() {
                assert(rest[i] == front[i] && rest[j] == front[j]);
            } else {
                let b = inner[j - front.len()];
                assert(rest[j] == seq![k - 1] + b);
                if i < front.len() {
                    assert(rest[i] == front[i]);
                    assert(rest[i] =~= seq![front[i][0]] + front[i].drop_first());
                    lemma_earlier_beside(front[i][0], front[i].drop_first(), k - 1, b);
                } else {
                    let a = inner[i - front.len()];
                    assert(rest[i] == seq![k - 1] + a);
                    lemma_earlier_below(k - 1, a, b);
                }
            }
        }
        assert forall|r: Seq<int>|
            r.len() > 0 && r[0] < k && #[trigger] arrival(below, n, r) is Some implies rest.contains(
            r,
        ) by {
            if r[0] < less {
                assert(front.contains(r));
                let i = choose|i: int| 0 <= i < front.len() && front[i] == r;
                assert(rest[i] == r);
            } else {
                let s = r.drop_first();
                assert(arrival(below, kid, s) is Some);
                assert(inner.contains(s));
                let i = choose|i: int| 0 <= i < inner.len() && inner[i] == s;
                assert(seq![k - 1] + s =~= r);
                assert(back[i] == r);
                assert(rest[front.len() + i] == r);
            }
        }
    }
}

proof fn lemma_flatten_join<T>(a: Seq<Seq<T>>, b: Seq<Seq<T>>)
    ensures
        (a + b).flatten() == a.flatten() + b.flatten(),
    decreases a.len(),
{
    if a.len() == 0 {
        assert(a + b =~= b);
        assert(a.flatten() + b.flatten() =~= b.flatten());
    } else {
        assert((a + b).first() == a.first());
        assert((a + b).drop_first() =~= a.drop_first() + b);
        lemma_flatten_join(a.drop_first(), b);
        assert((a + b).flatten() =~= a.flatten() + b.flatten());
    }
}

proof fn lemma_listed<T>(own: spec_fn(NodePtr) -> Seq<T>, below: Below, n: NodePtr, fuel: nat)
    requires
        routes_end(below, n, fuel),
    ensures
        listed(own, below, n, tour(below, n, fuel)) == gathered(own, below, n, fuel),
    decreases fuel, 1nat, 0nat,
{
    let kids = below(n);
    let f = |r: Seq<int>| own(arrival(below, n, r)->0);
    let root = seq![Seq::<int>::empty()];
    let rest = tour_to(below, n, kids.len(), fuel);
    lemma_listed_to(own, below, n, kids.len(), fuel);
    assert(kids.take(kids.len() as int) =~= kids);
    assert((root + rest).map_values(f) =~= root.map_values(f) + rest.map_values(f));
    lemma_flatten_join(root.map_values(f), rest.map_values(f));
    let one = root.map_values(f);
    assert(one.len() == 1);
    assert(one.first() == own(n));
    assert(one.drop_first() =~= Seq::<Seq<T>>::empty());
    assert(one.drop_first().flatten() == Seq::<T>::empty());
    assert(one.flatten() =~= own(n));
}

proof fn lemma_listed_to<T>(
    own: spec_fn(NodePtr) -> Seq<T>,
    below: Below,
    n: NodePtr,
    k: nat,
    fuel: nat,
)
    requires
        routes_end(below, n, fuel),
        k <= below(n).len(),
    ensures
        listed(own, below, n, tour_to(below, n, k, fuel)) == gathered_all(
            own,
            below,
            below(n).take(k as int),
            fuel,
        ),
    decreases fuel, 0nat, k,
{
    let f = |r: Seq<int>| own(arrival(below, n, r)->0);
    if k == 0 {
        assert(tour_to(below, n, k, fuel).map_values(f) =~= Seq::<Seq<T>>::empty());
    } else {
        let less = (k - 1) as nat;
        let kid = below(n)[k - 1];
        let kids = below(n).take(k as int);
        assert(routes_end(below, kid, (fuel - 1) as nat));
        lemma_listed_to(own, below, n, less, fuel);
        lemma_listed(own, below, kid, (fuel - 1) as nat);
        assert(kids.drop_last() =~= below(n).take(less as int));
        assert(kids.last() == kid);
        let front = tour_to(below, n, less, fuel);
        let inner = tour(below, kid, (fuel - 1) as nat);
        let back = turned(k - 1, inner);
        assert((front + back).map_values(f) =~= front.map_values(f) + back.map_values(f));
        lemma_flatten_join(front.map_values(f), back.map_values(f));
        let g = |r: Seq<int>| own(arrival(below, kid, r)->0);
        assert(back.map_values(f) =~= inner.map_values(g)) by {
            assert forall|i: int| 0 <= i < inner.len() implies #[trigger] back.map_values(f)[i]
                == inner.map_values(g)[i] by {
                assert(back[i] == seq![k - 1] + inner[i]);
                assert(back[i].drop_first() =~= inner[i]);
            }
        }
    }
}

/// A walk that takes a node before what is below it lists all that stands at the
/// end of a route, in document order.
pub proof fn lemma_gathered_lists_all<T>(
    own: spec_fn(NodePtr) -> Seq<T>,
    below: Below,
    n: NodePtr,
    fuel: nat,
)
    requires
        routes_end(below, n, fuel),
    ensures
        lists_all(own, below, n, gathered(own, below, n, fuel)),
{
    lemma_tour(below, n, fuel);
    lemma_listed(own, below, n, fuel);
    assert(tours(below, n, tour(below, n, fuel)));
}

/// Routes that follow no more than the links of a walk that ends have an end.
pub proof fn lemma_routes_end(d: DomView, below: Below, n: NodePtr, reach: Reach, fuel: nat)
    requires
        ends_within(d, n, reach, fuel),
        forall|m: NodePtr, i: int|
            m < d.len() && 0 <= i < below(m).len() ==> followed(d[m as int], reach).contains(
                #[trigger] below(m)[i],
            ),
    ensures
        routes_end(below, n, fuel),
    decreases fuel,
{
    let all = followed(d[n as int], reach);
    assert forall|i: int| 0 <= i < below(n).len() implies routes_end(
        below,
        #[trigger] below(n)[i],
        (fuel - 1) as nat,
    ) by {
        assert(all.contains(below(n)[i]));
        let j = choose|j: int| 0 <= j < all.len() && all[j] == below(n)[i];
        assert(ends_within(d, all[j], reach, (fuel - 1) as nat));
        lemma_routes_end(d, below, below(n)[i], reach, (fuel - 1) as nat);
    }
}

/// What stands at the end of a route is in the list of all.
pub proof fn lemma_listed_has<T>(
    own: spec_fn(NodePtr) -> Seq<T>,
    below: Below,
    n: NodePtr,
    list: Seq<T>,
    route: Seq<int>,
    x: T,
)
    requires
        lists_all(own, below, n, list),
        arrival(below, n, route) is Some,
        own(arrival(below, n, route)->0).contains(x),
    ensures
        list.contains(x),
{
    let routes = choose|routes: Seq<Seq<int>>| #[trigger]
        tours(below, n, routes) && list == listed(own, below, n, routes);
    let f = |r: Seq<int>| own(arrival(below, n, r)->0);
    assert(routes.contains(route));
    let i = choose|i: int| 0 <= i < routes.len() && routes[i] == route;
    assert(routes.map_values(f)[i] == own(arrival(below, n, route)->0));
    lemma_flatten_has(routes.map_values(f), i, x);
}

/// What is in the list of all stands at the end of a route.
pub proof fn lemma_listed_from<T>(
    own: spec_fn(NodePtr) -> Seq<T>,
    below: Below,
    n: NodePtr,
    list: Seq<T>,
    x: T,
) -> (route: Seq<int>)
    requires
        lists_all(own, below, n, list),
        list.contains(x),
    ensures
        arrival(below, n, route) is Some,
        own(arrival(below, n, route)->0).contains(x),
{
    let routes = choose|routes: Seq<Seq<int>>| #[trigger]
        tours(below, n, routes) && list == listed(own, below, n, routes);
    let f = |r: Seq<int>| own(arrival(below, n, r)->0);
    let blocks = routes.map_values(f);
    let i = lemma_flatten_from(blocks, x);
    assert(blocks[i] == f(routes[i]));
    routes[i]
}

proof fn lemma_flatten_has<T>(blocks: Seq<Seq<T>>, i: int, x: T)
    requires
        0 <= i < blocks.len(),
        blocks[i].contains(x),
    ensures
        blocks.flatten().contains(x),
    decreases blocks.len(),
{
    let all = blocks.flatten();
    if i == 0 {
        let j = choose|j: int| 0 <= j < blocks[0].len() && blocks[0][j] == x;
        assert(all[j] == x);
    } else {
        let rest = blocks.drop_first();
        assert(rest[i - 1] == blocks[i]);
        lemma_flatten_has(rest, i - 1, x);
        let j = choose|j: int| 0 <= j < rest.flatten().len() && rest.flatten()[j] == x;
        assert(all[blocks.first().len() + j] == x);
    }
}

proof fn lemma_flatten_from<T>(blocks: Seq<Seq<T>>, x: T) -> (i: int)
    requires
        blocks.flatten().contains(x),
    ensures
        0 <= i < blocks.len(),
        blocks[i].contains(x),
    decreases blocks.len(),
{
    let all = blocks.flatten();
    let j = choose|j: int| 0 <= j < all.len() && all[j] == x;
    if j < blocks.first().len() {
        assert(blocks[0][j] == x);
        0
    } else {
        let rest = blocks.drop_first();
        assert(rest.flatten()[j - blocks.first().len()] == x);
        let i = lemma_flatten_from(rest, x);
        assert(rest[i] == blocks[i + 1]);
        i + 1
    }
}

/// More fuel makes no difference to a walk that ends.
pub proof fn lemma_gathered_stable<T>(
    own: spec_fn(NodePtr) -> Seq<T>,
    below: Below,
    n: NodePtr,
    f: nat,
    g: nat,
)
    requires
        routes_end(below, n, f),
        f <= g,
    ensures
        gathered(own, below, n, f) == gathered(own, below, n, g),
    decreases f, 1nat, 0nat,
{
    lemma_gathered_all_stable(own, below, below(n), f, g);
}

/// More fuel makes no difference to walks that end.
pub proof fn lemma_gathered_all_stable<T>(
    own: spec_fn(NodePtr) -> Seq<T>,
    below: Below,
    kids: Seq<NodePtr>,
    f: nat,
    g: nat,
)
    requires
        0 < f <= g,
        forall|i: int|
            0 <= i < kids.len() ==> routes_end(below, #[trigger] kids[i], (f - 1) as nat),
    ensures
        gathered_all(own, below, kids, f) == gathered_all(own, below, kids, g),
    decreases f, 0nat, kids.len(),
{
    if kids.len() > 0 {
        assert forall|i: int| 0 <= i < kids.drop_last().len() implies routes_end(
            below,
            #[trigger] kids.drop_last()[i],
            (f - 1) as nat,
        ) by {
            assert(kids.drop_last()[i] == kids[i]);
        }
        lemma_gathered_all_stable(own, below, kids.drop_last(), f, g);
        assert(kids[kids.len() - 1] == kids.last());
        lemma_gathered_stable(own, below, kids.last(), (f - 1) as nat, (g - 1) as nat);
    }
}

/// Walks over two lists, one after the other.
pub proof fn lemma_gathered_join<T>(
    own: spec_fn(NodePtr) -> Seq<T>,
    below: Below,
    a: Seq<NodePtr>,
    b: Seq<NodePtr>,
    fuel: nat,
)
    ensures
        gathered_all(own, below, a + b, fuel) == gathered_all(own, below, a, fuel) + gathered_all(
            own,
            below,
            b,
            fuel,
        ),
    decreases b.len(),
{
    if b.len() == 0 {
        assert(a + b =~= a);
        assert(gathered_all(own, below, a, fuel) + gathered_all(own, below, b, fuel)
            =~= gathered_all(own, below, a, fuel));
    } else if fuel > 0 {
        assert((a + b).drop_last() =~= a + b.drop_last());
        lemma_gathered_join(own, below, a, b.drop_last(), fuel);
        assert(gathered_all(own, below, a + b, fuel) =~= gathered_all(own, below, a, fuel)
            + gathered_all(own, below, b, fuel));
    } else {
        assert(gathered_all(own, below, a, fuel) + gathered_all(own, below, b, fuel)
            =~= gathered_all(own, below, a + b, fuel));
    }
}

/// A walk over one node.
pub proof fn lemma_gathered_one<T>(
    own: spec_fn(NodePtr) -> Seq<T>,
    below: Below,
    n: NodePtr,
    fuel: nat,
)
    requires
        fuel > 0,
    ensures
        gathered_all(own, below, seq![n], fuel) == gathered(own, below, n, (fuel - 1) as nat),
{
    let one = seq![n];
    assert(one.drop_last() =~= Seq::<NodePtr>::empty());
    assert(gathered_all(own, below, one.drop_last(), fuel) =~= Seq::<T>::empty());
    assert(gathered_all(own, below, one, fuel) =~= gathered(own, below, n, (fuel - 1) as nat));
}

/// The node `k` parents above `n`.
pub open spec fn above(d: DomView, n: NodePtr, k: nat) -> Option<NodePtr>
    decreases k,
{
    if k == 0 {
        Some(n)
    } else {
        match above(d, n, (k - 1) as nat) {
            Some(m) => parent_of(d[m as int]),
            None => None,
        }
    }
}

/// Going up from a node is going up from its parent.
pub proof fn lemma_above_parent(d: DomView, n: NodePtr, k: nat)
    requires
        k > 0,
    ensures
        above(d, n, k) == (match parent_of(d[n as int]) {
            Some(p) => above(d, p, (k - 1) as nat),
            None => None,
        }),
    decreases k,
{
    if k > 1 {
        lemma_above_parent(d, n, (k - 1) as nat);
    } else {
        assert(above(d, n, 0) == Some(n));
    }
}

} // verus!
