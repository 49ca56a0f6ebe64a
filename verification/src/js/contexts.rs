//! Which elements a query considers, and what it says of them.

use crate::css::ast::ElementDataView;
use crate::dom::node::{children_of, finite_from, DomView, NodePtr, NodeView, Reach};
use crate::dom::routes::{arrival, child_lists, gathered, gathered_all, lemma_gathered_lists_all,
    lemma_routes_end, lists_all};
use crate::js::query::{candidates, candidates_among, data_of, elements_of, Candidate};
use vstd::prelude::*;

verus! {

/// What matching reads of an element.
pub open spec fn read_of(n: NodeView) -> ElementDataView {
    ElementDataView {
        tag_name: n->Element_0.tag_name,
        attributes: n->Element_0.attributes,
        custom_element_defined: n->Element_0.custom_element_defined,
    }
}

/// The elements of a list, in its order.
pub open spec fn elements_in(d: DomView, kids: Seq<NodePtr>) -> Seq<ElementDataView> {
    kids.filter(|x: NodePtr| d[x as int] is Element).map_values(|x: NodePtr| read_of(d[x as int]))
}

/// The elements on a route from `n`, from `n` on; the end of the route is none of
/// them.
pub open spec fn on_the_way(d: DomView, n: NodePtr, route: Seq<int>) -> Seq<ElementDataView>
    decreases route.len(),
{
    if route.len() == 0 {
        Seq::empty()
    } else {
        let before = on_the_way(d, n, route.drop_last());
        let last = arrival(child_lists(d), n, route.drop_last())->0;
        if d[last as int] is Element {
            before.push(read_of(d[last as int]))
        } else {
            before
        }
    }
}

/// Whether a candidate is the element at the end of a route from `n`, with its
/// place in the tree told right: behind `above`, the elements on the way to it,
/// the elements of its child list, and how many of them stand before it.
pub open spec fn is_told(
    d: DomView,
    n: NodePtr,
    above: Seq<ElementDataView>,
    route: Seq<int>,
    c: Candidate,
) -> bool {
    &&& route.len() > 0
    &&& arrival(child_lists(d), n, route) == Some(c.node)
    &&& d[c.node as int] is Element
    &&& c.data == read_of(d[c.node as int])
    &&& c.ancestors == above + on_the_way(d, n, route)
    &&& {
        let list = child_lists(d)(arrival(child_lists(d), n, route.drop_last())->0);
        &&& c.siblings == elements_in(d, list)
        &&& c.index == elements_in(d, list.take(route.last())).len()
    }
}

proof fn lemma_elements_in(d: DomView, kids: Seq<NodePtr>)
    ensures
        elements_of(d, kids) == elements_in(d, kids),
    decreases kids.len(),
{
    reveal(Seq::filter);
    let p = |x: NodePtr| d[x as int] is Element;
    let f = |x: NodePtr| read_of(d[x as int]);
    if kids.len() == 0 {
        assert(elements_in(d, kids) =~= Seq::<ElementDataView>::empty());
    } else {
        lemma_elements_in(d, kids.drop_last());
        let front = kids.drop_last().filter(p);
        if d[kids.last() as int] is Element {
            assert(kids.filter(p) == front.push(kids.last()));
            assert(front.push(kids.last()).map_values(f) =~= front.map_values(f).push(
                f(kids.last()),
            ));
        } else {
            assert(kids.filter(p) == front);
        }
    }
}

proof fn lemma_arrival_split(d: DomView, n: NodePtr, i: int, r: Seq<int>)
    requires
        0 <= i < child_lists(d)(n).len(),
    ensures
        arrival(child_lists(d), n, seq![i] + r) == arrival(
            child_lists(d),
            child_lists(d)(n)[i],
            r,
        ),
{
    assert((seq![i] + r).drop_first() =~= r);
}

/// Routes that begin alike pass the same elements first.
proof fn lemma_way_below(d: DomView, n: NodePtr, i: int, r: Seq<int>)
    requires
        0 <= i < child_lists(d)(n).len(),
    ensures
        on_the_way(d, n, seq![i] + r) == (if d[n as int] is Element {
            seq![read_of(d[n as int])]
        } else {
            Seq::empty()
        }) + on_the_way(d, child_lists(d)(n)[i], r),
    decreases r.len(),
{
    let kid = child_lists(d)(n)[i];
    let route = seq![i] + r;
    if r.len() == 0 {
        assert(route.drop_last() =~= Seq::<int>::empty());
        assert(on_the_way(d, n, route.drop_last()) =~= Seq::<ElementDataView>::empty());
        assert(arrival(child_lists(d), n, route.drop_last()) == Some(n));
        assert(on_the_way(d, kid, r) =~= Seq::<ElementDataView>::empty());
        assert(on_the_way(d, n, route) =~= (if d[n as int] is Element {
            seq![read_of(d[n as int])]
        } else {
            Seq::empty()
        }));
    } else {
        assert(route.drop_last() =~= seq![i] + r.drop_last());
        lemma_way_below(d, n, i, r.drop_last());
        lemma_arrival_split(d, n, i, r.drop_last());
        assert(on_the_way(d, n, route) =~= (if d[n as int] is Element {
            seq![read_of(d[n as int])]
        } else {
            Seq::empty()
        }) + on_the_way(d, kid, r));
    }
}

/// Every element that a query considers is told with the place where it stands.
pub proof fn law_candidates_are_told_in_place(
    d: DomView,
    n: NodePtr,
    above: Seq<ElementDataView>,
    fuel: nat,
    i: int,
) -> (route: Seq<int>)
    requires
        0 <= i < candidates(d, n, above, Seq::empty(), 0, true, fuel).len(),
    ensures
        is_told(
            d,
            n,
            above,
            route,
            candidates(d, n, above, Seq::empty(), 0, true, fuel)[i],
        ),
{
    let cs = candidates(d, n, above, Seq::empty(), 0, true, fuel);
    let kids = children_of(d[n as int]);
    assert(kids =~= child_lists(d)(n));
    let path = match data_of(d[n as int]) {
        Some(data) => above.push(data),
        None => above,
    };
    let rest = candidates_among(d, kids, kids, path, fuel);
    assert(cs =~= rest);
    assert(kids.take(kids.len() as int) =~= kids);
    lemma_told_among(d, n, above, kids.len() as int, fuel, i)
}

proof fn lemma_told(
    d: DomView,
    n: NodePtr,
    above: Seq<ElementDataView>,
    siblings: Seq<ElementDataView>,
    index: nat,
    fuel: nat,
    i: int,
) -> (route: Seq<int>)
    requires
        0 <= i < candidates(d, n, above, siblings, index, false, fuel).len(),
    ensures
        ({
            let c = candidates(d, n, above, siblings, index, false, fuel)[i];
            if route.len() == 0 {
                &&& d[n as int] is Element
                &&& c == (Candidate {
                    node: n,
                    data: read_of(d[n as int]),
                    ancestors: above,
                    siblings,
                    index,
                })
            } else {
                is_told(d, n, above, route, c)
            }
        }),
    decreases fuel, 1nat, 0nat,
{
    let cs = candidates(d, n, above, siblings, index, false, fuel);
    let kids = children_of(d[n as int]);
    assert(kids =~= child_lists(d)(n));
    assert(kids.take(kids.len() as int) =~= kids);
    let path = match data_of(d[n as int]) {
        Some(data) => above.push(data),
        None => above,
    };
    let rest = candidates_among(d, kids, kids, path, fuel);
    if d[n as int] is Element {
        if i == 0 {
            Seq::empty()
        } else {
            assert(cs[i] == rest[i - 1]);
            lemma_told_among(d, n, above, kids.len() as int, fuel, i - 1)
        }
    } else {
        assert(cs =~= rest);
        lemma_told_among(d, n, above, kids.len() as int, fuel, i)
    }
}

proof fn lemma_told_among(
    d: DomView,
    n: NodePtr,
    above: Seq<ElementDataView>,
    k: int,
    fuel: nat,
    i: int,
) -> (route: Seq<int>)
    requires
        0 <= k <= children_of(d[n as int]).len(),
        ({
            let kids = children_of(d[n as int]);
            let path = match data_of(d[n as int]) {
                Some(data) => above.push(data),
                None => above,
            };
            0 <= i < candidates_among(d, kids.take(k), kids, path, fuel).len()
        }),
    ensures
        ({
            let kids = children_of(d[n as int]);
            let path = match data_of(d[n as int]) {
                Some(data) => above.push(data),
                None => above,
            };
            is_told(d, n, above, route, candidates_among(d, kids.take(k), kids, path, fuel)[i])
        }),
    decreases fuel, 0nat, k,
{
    let kids = children_of(d[n as int]);
    assert(kids =~= child_lists(d)(n));
    let path = match data_of(d[n as int]) {
        Some(data) => above.push(data),
        None => above,
    };
    let front = kids.take(k - 1);
    assert(kids.take(k).drop_last() =~= front);
    assert(kids.take(k).last() == kids[k - 1]);
    let first = candidates_among(d, front, kids, path, fuel);
    if i < first.len() {
        lemma_told_among(d, n, above, k - 1, fuel, i)
    } else {
        let kid = kids[k - 1];
        let index = if d[kid as int] is Element {
            elements_of(d, front).len()
        } else {
            0
        };
        let siblings = elements_of(d, kids);
        let part = candidates(d, kid, path, siblings, index, false, (fuel - 1) as nat);
        let all = candidates_among(d, kids.take(k), kids, path, fuel);
        assert(all == first + part);
        assert(all[i] == part[i - first.len()]);
        let r = lemma_told(d, kid, path, siblings, index, (fuel - 1) as nat, i - first.len());
        let route = seq![k - 1] + r;
        lemma_elements_in(d, kids);
        lemma_elements_in(d, front);
        lemma_arrival_split(d, n, k - 1, r);
        lemma_way_below(d, n, k - 1, r);
        if r.len() == 0 {
            assert(route.drop_last() =~= Seq::<int>::empty());
            assert(on_the_way(d, kid, r) =~= Seq::<ElementDataView>::empty());
        } else {
            assert(route.drop_last() =~= seq![k - 1] + r.drop_last());
            lemma_arrival_split(d, n, k - 1, r.drop_last());
            assert(route.last() == r.last());
        }
        assert(all[i].ancestors =~= above + on_the_way(d, n, route));
        route
    }
}

/// An element on its own.
pub open spec fn element_alone(d: DomView) -> spec_fn(NodePtr) -> Seq<NodePtr> {
    |m: NodePtr|
        if d[m as int] is Element {
            seq![m]
        } else {
            Seq::empty()
        }
}

/// The nodes of candidates.
pub open spec fn nodes_of_candidates(cs: Seq<Candidate>) -> Seq<NodePtr> {
    cs.map_values(|c: Candidate| c.node)
}

/// A query considers every element at or below a node, at every depth, once and
/// in document order, and no other.
pub proof fn law_every_element_is_considered(
    d: DomView,
    n: NodePtr,
    above: Seq<ElementDataView>,
    siblings: Seq<ElementDataView>,
    index: nat,
)
    requires
        finite_from(d, n, Reach::Children),
    ensures
        lists_all(
            element_alone(d),
            child_lists(d),
            n,
            nodes_of_candidates(candidates(d, n, above, siblings, index, false, d.len())),
        ),
        candidates(d, n, above, siblings, index, false, d.len()) == (if d[n as int] is Element {
            seq![
                Candidate { node: n, data: read_of(d[n as int]), ancestors: above, siblings, index },
            ]
        } else {
            Seq::empty()
        }) + candidates(d, n, above, siblings, index, true, d.len()),
{
    lemma_routes_end(
        d,
        child_lists(d),
        n,
        Reach::Children,
        d.len(),
    );
    lemma_gathered_lists_all(element_alone(d), child_lists(d), n, d.len());
    lemma_candidates_gathered(d, n, above, siblings, index, d.len());
}

proof fn lemma_candidates_gathered(
    d: DomView,
    n: NodePtr,
    above: Seq<ElementDataView>,
    siblings: Seq<ElementDataView>,
    index: nat,
    fuel: nat,
)
    ensures
        nodes_of_candidates(candidates(d, n, above, siblings, index, false, fuel)) == gathered(
            element_alone(d),
            child_lists(d),
            n,
            fuel,
        ),
    decreases fuel, 1nat, 0nat,
{
    let kids = children_of(d[n as int]);
    assert(kids =~= child_lists(d)(n));
    let path = match data_of(d[n as int]) {
        Some(data) => above.push(data),
        None => above,
    };
    let rest = candidates_among(d, kids, kids, path, fuel);
    lemma_candidates_gathered_all(d, kids, kids, path, fuel);
    assert(nodes_of_candidates(candidates(d, n, above, siblings, index, false, fuel))
        =~= element_alone(d)(n) + nodes_of_candidates(rest));
}

proof fn lemma_candidates_gathered_all(
    d: DomView,
    kids: Seq<NodePtr>,
    all: Seq<NodePtr>,
    path: Seq<ElementDataView>,
    fuel: nat,
)
    ensures
        nodes_of_candidates(candidates_among(d, kids, all, path, fuel)) == gathered_all(
            element_alone(d),
            child_lists(d),
            kids,
            fuel,
        ),
    decreases fuel, 0nat, kids.len(),
{
    if kids.len() == 0 || fuel == 0 {
        assert(nodes_of_candidates(candidates_among(d, kids, all, path, fuel)) =~= Seq::<
            NodePtr,
        >::empty());
    } else {
        let front = kids.drop_last();
        let index = if d[kids.last() as int] is Element {
            elements_of(d, front).len()
        } else {
            0
        };
        let a = candidates_among(d, front, all, path, fuel);
        let b = candidates(
            d,
            kids.last(),
            path,
            elements_of(d, all),
            index,
            false,
            (fuel - 1) as nat,
        );
        lemma_candidates_gathered_all(d, front, all, path, fuel);
        lemma_candidates_gathered(
            d,
            kids.last(),
            path,
            elements_of(d, all),
            index,
            (fuel - 1) as nat,
        );
        assert(nodes_of_candidates(a + b) =~= nodes_of_candidates(a) + nodes_of_candidates(b));
    }
}

} // verus!
