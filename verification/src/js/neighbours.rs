//! What stands next to a node and above it.

use crate::css::ast::ElementDataView;
use crate::dom::node::{children_of, closed_links, node_ok, parent_of, DomView, NodePtr, NodeView};
use crate::dom::routes::{above, lemma_above_parent};
use crate::dom::shadow::is_root_at;
use crate::js::contexts::{elements_in, read_of};
use crate::js::mutation::lemma_first_index;
use crate::js::nodes::{climbed, script_parent, sibling, sibling_at, tried};
use crate::js::query::{ancestor_chain, data_of, found_parent, parent_is_current};
use vstd::prelude::*;

verus! {

/// Whether a node is an element, and no fragment.
pub open spec fn is_plain_element(n: NodeView) -> bool {
    n matches NodeView::Element(el) && el.tag_name != "#document-fragment"@
}

/// Which siblings count: all, or the elements only.
pub open spec fn counted_siblings(
    d: DomView,
    list: Seq<NodePtr>,
    elements_only: bool,
) -> Seq<NodePtr> {
    list.filter(|x: NodePtr| !elements_only || is_plain_element(d[x as int]))
}

/// The sibling so many steps behind a node is that many places on in the list of
/// those that stand behind it and count, and the one before it that many places
/// back in the list of those before it. There is none where the list is too short.
pub proof fn law_siblings_are_counted_from_the_node(
    d: DomView,
    n: NodePtr,
    p: NodePtr,
    at: int,
    delta: i32,
    elements_only: bool,
)
    requires
        parent_of(d[n as int]) == Some(p),
        0 <= at < children_of(d[p as int]).len(),
        children_of(d[p as int])[at] == n,
        forall|j: int| 0 <= j < at ==> #[trigger] children_of(d[p as int])[j] != n,
        delta != 0,
        delta > i32::MIN,
    ensures
        ({
            let kids = children_of(d[p as int]);
            let behind = counted_siblings(d, kids.skip(at + 1), elements_only);
            let before = counted_siblings(d, kids.take(at), elements_only);
            sibling(d, n, delta, elements_only) == (if delta > 0 {
                if delta <= behind.len() {
                    Some(behind[delta - 1])
                } else {
                    None
                }
            } else {
                if -delta <= before.len() {
                    Some(before[before.len() + delta])
                } else {
                    None
                }
            })
        }),
{
    let kids = children_of(d[p as int]);
    lemma_first_index(kids, n, at);
    if delta > 0 {
        lemma_sibling_behind(d, kids, at, delta as nat, elements_only);
    } else {
        lemma_sibling_before(d, kids, at, (-delta) as nat, elements_only);
    }
}

proof fn lemma_sibling_behind(
    d: DomView,
    kids: Seq<NodePtr>,
    at: int,
    steps: nat,
    elements_only: bool,
)
    requires
        0 <= at < kids.len(),
        steps > 0,
    ensures
        ({
            let behind = counted_siblings(d, kids.skip(at + 1), elements_only);
            sibling_at(d, kids, at, true, steps, elements_only) == (if steps <= behind.len() {
                Some(behind[steps - 1])
            } else {
                None
            })
        }),
    decreases kids.len() - at,
{
    let q = |x: NodePtr| !elements_only || is_plain_element(d[x as int]);
    let list = kids.skip(at + 1);
    if at + 1 >= kids.len() {
        reveal(Seq::filter);
        assert(list.len() == 0);
    } else {
        let next = kids[at + 1];
        let rest = kids.skip(at + 2);
        assert(list =~= seq![next] + rest);
        lemma_filter_cons(next, rest, q);
        lemma_sibling_behind(d, kids, at + 1, steps, elements_only);
        if steps > 1 {
            lemma_sibling_behind(d, kids, at + 1, (steps - 1) as nat, elements_only);
        }
    }
}

proof fn lemma_filter_cons(x: NodePtr, rest: Seq<NodePtr>, q: spec_fn(NodePtr) -> bool)
    ensures
        (seq![x] + rest).filter(q) == (if q(x) {
            seq![x]
        } else {
            Seq::empty()
        }) + rest.filter(q),
    decreases rest.len(),
{
    reveal(Seq::filter);
    let all = seq![x] + rest;
    if rest.len() == 0 {
        assert(all.drop_last() =~= Seq::<NodePtr>::empty());
        assert(all.last() == x);
        assert(all.drop_last().filter(q) =~= Seq::<NodePtr>::empty());
        assert(all.filter(q) =~= (if q(x) {
            seq![x]
        } else {
            Seq::empty()
        }) + rest.filter(q));
    } else {
        assert(all.drop_last() =~= seq![x] + rest.drop_last());
        lemma_filter_cons(x, rest.drop_last(), q);
        assert(all.last() == rest.last());
        assert(all.filter(q) =~= (if q(x) {
            seq![x]
        } else {
            Seq::empty()
        }) + rest.filter(q));
    }
}

proof fn lemma_sibling_before(
    d: DomView,
    kids: Seq<NodePtr>,
    at: int,
    steps: nat,
    elements_only: bool,
)
    requires
        0 <= at < kids.len(),
        steps > 0,
    ensures
        ({
            let before = counted_siblings(d, kids.take(at), elements_only);
            sibling_at(d, kids, at, false, steps, elements_only) == (if steps <= before.len() {
                Some(before[before.len() - steps])
            } else {
                None
            })
        }),
    decreases at,
{
    reveal(Seq::filter);
    let list = kids.take(at);
    if at == 0 {
        assert(list.len() == 0);
    } else {
        assert(list.drop_last() =~= kids.take(at - 1));
        assert(list.last() == kids[at - 1]);
        lemma_sibling_before(d, kids, at - 1, steps, elements_only);
        if steps > 1 {
            lemma_sibling_before(d, kids, at - 1, (steps - 1) as nat, elements_only);
        }
    }
}

/// Whether every parent pointer names a node that owns what it comes from.
pub open spec fn is_current(d: DomView) -> bool {
    forall|m: NodePtr| m < d.len() ==> #[trigger] parent_is_current(d, m)
}

/// The ancestors of a node from the top down, where it has `k` of them.
pub open spec fn line_above(d: DomView, n: NodePtr, k: nat) -> Seq<NodePtr> {
    Seq::new(k, |i: int| above(d, n, (k - i) as nat)->0)
}

/// The ancestors that a selector is tried with are the elements above the node,
/// outermost first, and looking them up changes nothing where all parent pointers
/// are current.
pub proof fn law_ancestors_are_the_elements_above(
    d: DomView,
    root: NodePtr,
    n: NodePtr,
    k: nat,
    fuel: nat,
)
    requires
        closed_links(d),
        n < d.len(),
        is_current(d),
        above(d, n, k) is Some,
        above(d, n, k + 1) is None,
        k <= fuel,
    ensures
        ancestor_chain(d, root, n, fuel) == (d, elements_in(d, line_above(d, n, k))),
    decreases k,
{
    assert(parent_is_current(d, n));
    assert(found_parent(d, root, n) == (d, parent_of(d[n as int])));
    assert(above(d, n, 0) == Some(n));
    assert(above(d, n, 1) == parent_of(d[n as int])) by {
        lemma_above_parent(d, n, 1);
        if let Some(p) = parent_of(d[n as int]) {
            assert(above(d, p, 0) == Some(p));
        }
    }
    let line = line_above(d, n, k);
    let q = |x: NodePtr| d[x as int] is Element;
    let f = |x: NodePtr| read_of(d[x as int]);
    reveal(Seq::filter);
    match parent_of(d[n as int]) {
        Some(p) => {
            lemma_above_parent(d, n, k + 1);
            if k == 0 {
                assert(above(d, n, 1) is Some);
            } else {
                lemma_above_parent(d, n, k);
                assert(node_ok(d[n as int], d.len()));
                law_ancestors_are_the_elements_above(
                    d,
                    root,
                    p,
                    (k - 1) as nat,
                    (fuel - 1) as nat,
                );
                let upper = line_above(d, p, (k - 1) as nat);
                assert(line.drop_last() =~= upper) by {
                    assert forall|i: int| 0 <= i < upper.len() implies #[trigger] upper[i]
                        == line[i] by {
                        lemma_above_parent(d, n, (k - i) as nat);
                    }
                }
                assert(line.last() == p);
                let front = upper.filter(q);
                if d[p as int] is Element {
                    assert(line.filter(q) == front.push(p));
                    assert(front.push(p).map_values(f) =~= front.map_values(f).push(f(p)));
                    assert(data_of(d[p as int]) == Some(read_of(d[p as int])));
                } else {
                    assert(line.filter(q) == front);
                }
            }
        },
        None => {
            if k > 0 {
                lemma_above_parent(d, n, k);
            }
            assert(line.len() == 0);
            assert(elements_in(d, line) =~= Seq::<ElementDataView>::empty());
        },
    }
}

/// `closest` looks at the node, then at its parent, then at its parent's parent,
/// and on until there is none; from a shadow root it does not go on to the host.
pub proof fn law_closest_climbs_parent_by_parent(
    d: DomView,
    root: NodePtr,
    n: NodePtr,
    k: nat,
    fuel: nat,
    i: int,
)
    requires
        closed_links(d),
        n < d.len(),
        is_current(d),
        above(d, n, k) is Some,
        above(d, n, k + 1) is None,
        k <= d.len(),
        0 <= i < climbed(d, root, n, fuel).len(),
    ensures
        ({
            let steps = climbed(d, root, n, fuel);
            &&& steps[i].dom == d
            &&& above(d, n, i as nat) == Some(steps[i].node)
            &&& i < steps.len() - 1 ==> !is_root_at(d, steps[i].node)
            &&& i == steps.len() - 1 ==> is_root_at(d, steps[i].node) || parent_of(
                d[steps[i].node as int],
            ) is None || steps.len() == fuel
        }),
    decreases fuel,
{
    let steps = climbed(d, root, n, fuel);
    assert(above(d, n, 0) == Some(n));
    assert(parent_is_current(d, n));
    law_ancestors_are_the_elements_above(d, root, n, k, d.len());
    assert(tried(d, root, n) == d);
    assert(steps[0].node == n);
    match script_parent(d, n).1 {
        Some(p) => {
            assert(parent_of(d[n as int]) == Some(p));
            assert(node_ok(d[n as int], d.len()));
            lemma_above_parent(d, n, k + 1);
            if k == 0 {
                lemma_above_parent(d, n, 1);
                assert(above(d, p, 0) == Some(p));
            } else {
                lemma_above_parent(d, n, k);
                let rest = climbed(d, root, p, (fuel - 1) as nat);
                assert(steps =~= seq![steps[0]] + rest);
                if i > 0 {
                    law_closest_climbs_parent_by_parent(
                        d,
                        root,
                        p,
                        (k - 1) as nat,
                        (fuel - 1) as nat,
                        i - 1,
                    );
                    assert(steps[i] == rest[i - 1]);
                    lemma_above_parent(d, n, i as nat);
                }
            }
        },
        None => {},
    }
}

} // verus!
