//! Documents in layers.
//!
//! Where the nodes of a document can be numbered so that every step of a kind
//! of walk leads to a lower number, all walks of that kind end. The numbers are
//! called layers here. They survive the distribution of light children, which
//! changes what is rendered while it is walked.

use crate::dom::node::{assigned_of, children_of, closed_links, ends_within, finite_from, followed,
    node_ok, opt_seq, retained_of, shadow_root_of, with_assigned, DomView, NodePtr, NodeView,
    Reach};
use crate::dom::shadow::{assigned_to, composed, distributed, flattened, is_slot,
    lemma_same_slots_in, same_but_assigned, slots_end, slots_in};
use vstd::prelude::*;

verus! {

/// The nodes that can be rendered directly below `n`, whatever else has been
/// distributed: children, shadow root and what a slot was given.
pub open spec fn below(n: NodeView) -> Seq<NodePtr> {
    children_of(n) + opt_seq(shadow_root_of(n)) + (if is_slot(n) {
        assigned_of(n)
    } else {
        Seq::empty()
    })
}

/// Whether `slot` may be given `child` when the light children of `host` are
/// distributed.
pub open spec fn may_be_given(d: DomView, host: NodePtr, slot: NodePtr, child: NodePtr) -> bool {
    &&& host < d.len()
    &&& shadow_root_of(d[host as int]) is Some
    &&& slots_in(d, shadow_root_of(d[host as int])->0, d.len()).contains(slot)
    &&& children_of(d[host as int]).contains(child)
}

/// Whether a walk over what is rendered may step from `a` to `b`, now or after
/// light children have been distributed.
pub open spec fn render_step(d: DomView, a: NodePtr, b: NodePtr) -> bool {
    &&& a < d.len()
    &&& below(d[a as int]).contains(b) || exists|host: NodePtr| may_be_given(d, host, a, b)
}

/// Whether `layers` numbers the nodes of `d` from 0 to less than their count.
pub open spec fn numbers(d: DomView, layers: Seq<nat>) -> bool {
    &&& layers.len() == d.len()
    &&& forall|i: int| 0 <= i < d.len() ==> #[trigger] layers[i] < d.len()
}

/// Whether every step over what is rendered leads to a lower layer.
pub open spec fn render_layers(d: DomView, layers: Seq<nat>) -> bool {
    &&& closed_links(d)
    &&& numbers(d, layers)
    &&& forall|a: NodePtr, b: NodePtr| #[trigger]
        render_step(d, a, b) ==> layers[b as int] < layers[a as int]
}

/// Whether the nodes have layers for the steps over what is rendered.
pub open spec fn renderable(d: DomView) -> bool {
    exists|layers: Seq<nat>| render_layers(d, layers)
}

/// Whether every node owns nodes of lower layers only: as children, as template
/// contents and as shadow root.
pub open spec fn owner_layers(d: DomView, layers: Seq<nat>) -> bool {
    &&& closed_links(d)
    &&& numbers(d, layers)
    &&& forall|a: NodePtr, b: NodePtr| #[trigger]
        owns(d, a, b) ==> layers[b as int] < layers[a as int]
}

/// Whether `a` owns `b` directly.
pub open spec fn owns(d: DomView, a: NodePtr, b: NodePtr) -> bool {
    a < d.len() && followed(d[a as int], Reach::All).contains(b)
}

/// Whether no node owns itself, directly or through others.
pub open spec fn acyclic(d: DomView) -> bool {
    exists|layers: Seq<nat>| owner_layers(d, layers)
}

/// A child lies in a lower layer.
proof fn lemma_child_is_lower(d: DomView, layers: Seq<nat>, n: NodePtr, i: int)
    requires
        render_layers(d, layers),
        n < d.len(),
        0 <= i < children_of(d[n as int]).len(),
    ensures
        children_of(d[n as int])[i] < d.len(),
        layers[children_of(d[n as int])[i] as int] < layers[n as int],
{
    let c = children_of(d[n as int])[i];
    assert(node_ok(d[n as int], d.len()));
    assert(below(d[n as int])[i] == c);
    assert(render_step(d, n, c));
}

/// A shadow root lies in a lower layer.
pub proof fn lemma_root_is_lower(d: DomView, layers: Seq<nat>, n: NodePtr)
    requires
        render_layers(d, layers),
        n < d.len(),
        shadow_root_of(d[n as int]) is Some,
    ensures
        shadow_root_of(d[n as int])->0 < d.len(),
        layers[shadow_root_of(d[n as int])->0 as int] < layers[n as int],
{
    let root = shadow_root_of(d[n as int])->0;
    assert(node_ok(d[n as int], d.len()));
    assert(below(d[n as int])[children_of(d[n as int]).len() as int] == root);
    assert(render_step(d, n, root));
}

/// What a slot was given lies in lower layers.
proof fn lemma_given_is_lower(d: DomView, layers: Seq<nat>, n: NodePtr, i: int)
    requires
        render_layers(d, layers),
        n < d.len(),
        is_slot(d[n as int]),
        0 <= i < assigned_of(d[n as int]).len(),
    ensures
        assigned_of(d[n as int])[i] < d.len(),
        layers[assigned_of(d[n as int])[i] as int] < layers[n as int],
{
    let c = assigned_of(d[n as int])[i];
    let front = children_of(d[n as int]) + opt_seq(shadow_root_of(d[n as int]));
    assert(node_ok(d[n as int], d.len()));
    assert(below(d[n as int])[front.len() + i] == c);
    assert(render_step(d, n, c));
}

/// The walk over the children of elements ends, from every node.
pub proof fn lemma_layers_end_children(d: DomView, layers: Seq<nat>, n: NodePtr, fuel: nat)
    requires
        render_layers(d, layers),
        n < d.len(),
        layers[n as int] < fuel,
    ensures
        ends_within(d, n, Reach::ElementChildren, fuel),
    decreases fuel,
{
    let kids = followed(d[n as int], Reach::ElementChildren);
    assert forall|i: int| 0 <= i < kids.len() implies ends_within(
        d,
        #[trigger] kids[i],
        Reach::ElementChildren,
        (fuel - 1) as nat,
    ) by {
        lemma_child_is_lower(d, layers, n, i);
        lemma_layers_end_children(d, layers, kids[i], (fuel - 1) as nat);
    }
}

/// Slots nested in slots end, from every node.
pub proof fn lemma_layers_end_slots(d: DomView, layers: Seq<nat>, n: NodePtr, fuel: nat)
    requires
        render_layers(d, layers),
        n < d.len(),
        layers[n as int] < fuel,
    ensures
        slots_end(d, n, fuel),
    decreases fuel,
{
    let kids = children_of(d[n as int]);
    assert forall|i: int| 0 <= i < kids.len() && is_slot(d[kids[i] as int]) implies slots_end(
        d,
        #[trigger] kids[i],
        (fuel - 1) as nat,
    ) by {
        lemma_child_is_lower(d, layers, n, i);
        lemma_layers_end_slots(d, layers, kids[i], (fuel - 1) as nat);
    }
}

/// Composed children lie in lower layers.
pub proof fn lemma_composed_is_lower(d: DomView, layers: Seq<nat>, n: NodePtr, fuel: nat)
    requires
        render_layers(d, layers),
        n < d.len(),
    ensures
        forall|i: int|
            0 <= i < composed(d, n, fuel).len() ==> (#[trigger] composed(d, n, fuel)[i]) < d.len()
                && layers[composed(d, n, fuel)[i] as int] < layers[n as int],
    decreases fuel, 1nat, 0nat,
{
    let list = composed(d, n, fuel);
    assert(node_ok(d[n as int], d.len()));
    if shadow_root_of(d[n as int]) is Some {
        lemma_root_is_lower(d, layers, n);
        assert(list == seq![shadow_root_of(d[n as int])->0]);
    } else if is_slot(d[n as int]) && assigned_of(d[n as int]).len() > 0 {
        assert forall|i: int| 0 <= i < list.len() implies (#[trigger] list[i]) < d.len()
            && layers[list[i] as int] < layers[n as int] by {
            lemma_given_is_lower(d, layers, n, i);
        }
    } else {
        let kids = children_of(d[n as int]);
        assert forall|i: int| 0 <= i < kids.len() implies (#[trigger] kids[i]) < d.len()
            && layers[kids[i] as int] < layers[n as int] by {
            lemma_child_is_lower(d, layers, n, i);
        }
        lemma_flattened_is_lower(d, layers, kids, layers[n as int], fuel);
        assert(list.len() > 0 ==> list == flattened(d, kids, fuel));
    }
}

proof fn lemma_flattened_is_lower(
    d: DomView,
    layers: Seq<nat>,
    kids: Seq<NodePtr>,
    bound: nat,
    fuel: nat,
)
    requires
        render_layers(d, layers),
        forall|i: int|
            0 <= i < kids.len() ==> (#[trigger] kids[i]) < d.len() && layers[kids[i] as int]
                < bound,
    ensures
        forall|i: int|
            0 <= i < flattened(d, kids, fuel).len() ==> (#[trigger] flattened(d, kids, fuel)[i])
                < d.len() && layers[flattened(d, kids, fuel)[i] as int] < bound,
    decreases fuel, 0nat, kids.len(),
{
    if kids.len() > 0 && fuel > 0 {
        let list = flattened(d, kids, fuel);
        let front = flattened(d, kids.drop_last(), fuel);
        assert(kids[kids.len() - 1] == kids.last());
        assert forall|i: int| 0 <= i < kids.drop_last().len() implies (
        #[trigger] kids.drop_last()[i]) < d.len() && layers[kids.drop_last()[i] as int] < bound by {
            assert(kids[i] == kids.drop_last()[i]);
        }
        lemma_flattened_is_lower(d, layers, kids.drop_last(), bound, fuel);
        lemma_composed_is_lower(d, layers, kids.last(), (fuel - 1) as nat);
        assert forall|i: int| 0 <= i < list.len() implies (#[trigger] list[i]) < d.len()
            && layers[list[i] as int] < bound by {
            if i < front.len() {
                assert(list[i] == front[i]);
            } else if is_slot(d[kids.last() as int]) {
                assert(list[i] == composed(d, kids.last(), (fuel - 1) as nat)[i - front.len()]);
            } else {
                assert(list[i] == kids.last());
            }
        }
    }
}

/// What is assigned comes from the light nodes.
proof fn lemma_assigned_is_light(
    d: DomView,
    slots: Seq<NodePtr>,
    light: Seq<NodePtr>,
    slot: NodePtr,
)
    ensures
        forall|c: NodePtr| #[trigger]
            assigned_to(d, slots, light, slot).contains(c) ==> light.contains(c),
    decreases light.len(),
{
    reveal(Seq::filter);
    if light.len() > 0 {
        let front = light.drop_last();
        lemma_assigned_is_light(d, slots, front, slot);
        assert forall|c: NodePtr| #[trigger]
            assigned_to(d, slots, light, slot).contains(c) implies light.contains(c) by {
            let list = assigned_to(d, slots, light, slot);
            let head = assigned_to(d, slots, front, slot);
            let i = choose|i: int| 0 <= i < list.len() && list[i] == c;
            if i < head.len() {
                assert(head[i] == c);
                assert(head.contains(c));
                let j = choose|j: int| 0 <= j < front.len() && front[j] == c;
                assert(light[j] == c);
            } else {
                assert(light[light.len() - 1] == c);
            }
        }
    }
}

/// Distribution changes nothing but what slots are given.
proof fn lemma_distribution(d: DomView, host: NodePtr)
    requires
        closed_links(d),
        d.len() <= usize::MAX,
        host < d.len(),
    ensures
        same_but_assigned(d, distributed(d, host)),
        forall|i: int|
            0 <= i < d.len() ==> {
                ||| assigned_of(#[trigger] distributed(d, host)[i]) == assigned_of(d[i])
                ||| {
                    &&& shadow_root_of(d[host as int]) is Some
                    &&& slots_in(d, shadow_root_of(d[host as int])->0, d.len()).contains(
                        i as NodePtr,
                    )
                    &&& forall|c: NodePtr| #[trigger]
                        assigned_of(distributed(d, host)[i]).contains(c) ==> children_of(
                            d[host as int],
                        ).contains(c)
                }
            },
{
    let e = distributed(d, host);
    assert forall|i: int| 0 <= i < d.len() implies #[trigger] e[i] == with_assigned(
        d[i],
        assigned_of(e[i]),
    ) by {
        assert(with_assigned(d[i], assigned_of(d[i])) == d[i]);
    }
    if let Some(root) = shadow_root_of(d[host as int]) {
        let slots = slots_in(d, root, d.len());
        let light = children_of(d[host as int]);
        assert forall|i: int| 0 <= i < d.len() && slots.contains(i as NodePtr) implies forall|
            c: NodePtr,
        | #[trigger] assigned_of(#[trigger] e[i]).contains(c) ==> light.contains(c) by {
            lemma_assigned_is_light(d, slots, light, i as NodePtr);
        }
    }
}

/// Layers survive the distribution of the light children of a host.
pub proof fn lemma_layers_survive_distribution(d: DomView, layers: Seq<nat>, host: NodePtr)
    requires
        render_layers(d, layers),
        d.len() <= usize::MAX,
        host < d.len(),
    ensures
        render_layers(distributed(d, host), layers),
        distributed(d, host).len() == d.len(),
{
    let e = distributed(d, host);
    lemma_distribution(d, host);
    assert(node_ok(d[host as int], d.len()));
    assert forall|i: int| 0 <= i < e.len() implies node_ok(#[trigger] e[i], e.len()) by {
        assert(node_ok(d[i], d.len()));
        assert(e[i] == with_assigned(d[i], assigned_of(e[i])));
        let list = assigned_of(e[i]);
        let light = children_of(d[host as int]);
        assert forall|k: int| 0 <= k < list.len() implies #[trigger] list[k] < e.len() by {
            if assigned_of(e[i]) != assigned_of(d[i]) {
                assert(list.contains(list[k]));
                let j = choose|j: int| 0 <= j < light.len() && light[j] == list[k];
                assert(light[j] < d.len());
            }
        }
    }
    assert forall|a: NodePtr, b: NodePtr| #[trigger] render_step(e, a, b) implies layers[b as int]
        < layers[a as int] by {
        assert(e[a as int] == with_assigned(d[a as int], assigned_of(e[a as int])));
        if exists|h: NodePtr| may_be_given(e, h, a, b) {
            let h = choose|h: NodePtr| may_be_given(e, h, a, b);
            assert(e[h as int] == with_assigned(d[h as int], assigned_of(e[h as int])));
            assert(node_ok(d[h as int], d.len()));
            lemma_same_slots_in(d, e, shadow_root_of(d[h as int])->0, d.len());
            assert(may_be_given(d, h, a, b));
        } else {
            let list = below(e[a as int]);
            let front = children_of(e[a as int]) + opt_seq(shadow_root_of(e[a as int]));
            let i = choose|i: int| 0 <= i < list.len() && list[i] == b;
            if i < front.len() || assigned_of(e[a as int]) == assigned_of(d[a as int]) {
                assert(below(d[a as int])[i] == b);
            } else {
                assert(assigned_of(e[a as int])[i - front.len()] == b);
                assert(assigned_of(e[a as int]).contains(b));
                assert(may_be_given(d, host, a, b));
            }
        }
        assert(render_step(d, a, b));
    }
}

/// Whatever a walk follows is owned.
proof fn lemma_followed_is_owned(d: DomView, n: NodePtr, reach: Reach, i: int)
    requires
        n < d.len(),
        0 <= i < followed(d[n as int], reach).len(),
    ensures
        owns(d, n, followed(d[n as int], reach)[i]),
{
    let x = followed(d[n as int], reach)[i];
    let kids = children_of(d[n as int]);
    let kept = retained_of(d[n as int]);
    let all = followed(d[n as int], Reach::All);
    match reach {
        Reach::Retained => {
            assert(all[kids.len() + i] == x);
        },
        Reach::Inert => {
            if i < kids.len() {
                assert(all[i] == x);
            } else {
                assert(kept[0] == x);
                assert(all[kids.len() as int] == x);
            }
        },
        _ => {
            assert(all[i] == x);
        },
    }
}

proof fn lemma_owner_layers_end(d: DomView, layers: Seq<nat>, n: NodePtr, reach: Reach, fuel: nat)
    requires
        owner_layers(d, layers),
        n < d.len(),
        layers[n as int] < fuel,
    ensures
        ends_within(d, n, reach, fuel),
    decreases fuel,
{
    let list = followed(d[n as int], reach);
    assert forall|i: int| 0 <= i < list.len() implies ends_within(
        d,
        #[trigger] list[i],
        reach,
        (fuel - 1) as nat,
    ) by {
        lemma_followed_is_owned(d, n, reach, i);
        lemma_owned_is_lower(d, layers, n, list[i]);
        lemma_owner_layers_end(d, layers, list[i], reach, (fuel - 1) as nat);
    }
}

/// What a node owns lies in a lower layer.
pub proof fn lemma_owned_is_lower(d: DomView, layers: Seq<nat>, a: NodePtr, b: NodePtr)
    requires
        owner_layers(d, layers),
        owns(d, a, b),
    ensures
        b < d.len(),
        layers[b as int] < layers[a as int],
{
    let all = followed(d[a as int], Reach::All);
    assert(node_ok(d[a as int], d.len()));
    let i = choose|i: int| 0 <= i < all.len() && all[i] == b;
    assert(all[i] < d.len());
}

/// Where no node owns itself, every walk from every node ends.
pub proof fn law_acyclic_walks_end(d: DomView, n: NodePtr, reach: Reach)
    requires
        acyclic(d),
        n < d.len(),
    ensures
        finite_from(d, n, reach),
{
    let layers = choose|layers: Seq<nat>| owner_layers(d, layers);
    lemma_owner_layers_end(d, layers, n, reach, d.len());
}

/// Whether `x` is `n` or owned by it through at most `fuel` steps.
pub open spec fn holds_within(d: DomView, n: NodePtr, x: NodePtr, fuel: nat) -> bool
    decreases fuel,
{
    n == x || fuel > 0 && exists|b: NodePtr| #[trigger]
        owns(d, n, b) && holds_within(d, b, x, (fuel - 1) as nat)
}

/// Whether `x` is `n` or owned by it, directly or through others.
pub open spec fn holds(d: DomView, n: NodePtr, x: NodePtr) -> bool {
    exists|fuel: nat| holds_within(d, n, x, fuel)
}

proof fn lemma_holds_step(d: DomView, n: NodePtr, x: NodePtr, y: NodePtr, fuel: nat)
    requires
        holds_within(d, n, x, fuel),
        owns(d, x, y),
    ensures
        holds_within(d, n, y, fuel + 1),
    decreases fuel,
{
    if n == x {
        assert(owns(d, n, y) && holds_within(d, y, y, fuel));
    } else {
        let b = choose|b: NodePtr| #[trigger]
            owns(d, n, b) && holds_within(d, b, x, (fuel - 1) as nat);
        lemma_holds_step(d, b, x, y, (fuel - 1) as nat);
        assert(owns(d, n, b) && holds_within(d, b, y, fuel));
    }
}

/// What a held node owns is held.
pub proof fn lemma_holds_owned(d: DomView, n: NodePtr, x: NodePtr, y: NodePtr)
    requires
        holds(d, n, x),
        owns(d, x, y),
    ensures
        holds(d, n, y),
{
    let fuel = choose|fuel: nat| holds_within(d, n, x, fuel);
    lemma_holds_step(d, n, x, y, fuel);
}

/// What a held node holds is held.
pub proof fn lemma_holds_held(d: DomView, n: NodePtr, x: NodePtr, y: NodePtr)
    requires
        holds(d, n, x),
        holds(d, x, y),
    ensures
        holds(d, n, y),
{
    let fuel = choose|fuel: nat| holds_within(d, n, x, fuel);
    lemma_holds_held_within(d, n, x, y, fuel);
}

proof fn lemma_holds_held_within(d: DomView, n: NodePtr, x: NodePtr, y: NodePtr, fuel: nat)
    requires
        holds_within(d, n, x, fuel),
        holds(d, x, y),
    ensures
        holds(d, n, y),
    decreases fuel,
{
    if n != x {
        let b = choose|b: NodePtr| #[trigger]
            owns(d, n, b) && holds_within(d, b, x, (fuel - 1) as nat);
        lemma_holds_held_within(d, b, x, y, (fuel - 1) as nat);
        lemma_owner_holds(d, n, b, y);
    }
}

/// An owner holds what its nodes hold.
pub proof fn lemma_owner_holds(d: DomView, a: NodePtr, b: NodePtr, x: NodePtr)
    requires
        owns(d, a, b),
        holds(d, b, x),
    ensures
        holds(d, a, x),
{
    let fuel = choose|fuel: nat| holds_within(d, b, x, fuel);
    assert(owns(d, a, b) && holds_within(d, b, x, ((fuel + 1) - 1) as nat));
    assert(holds_within(d, a, x, fuel + 1));
}

/// Where walks end, as many steps as a walk needs find all that is held.
pub proof fn lemma_holds_ends(d: DomView, n: NodePtr, x: NodePtr, fuel: nat, enough: nat)
    requires
        holds_within(d, n, x, fuel),
        ends_within(d, n, Reach::All, enough),
    ensures
        holds_within(d, n, x, enough),
    decreases fuel,
{
    if n != x {
        let b = choose|b: NodePtr| #[trigger]
            owns(d, n, b) && holds_within(d, b, x, (fuel - 1) as nat);
        let all = followed(d[n as int], Reach::All);
        let i = choose|i: int| 0 <= i < all.len() && all[i] == b;
        assert(ends_within(d, all[i], Reach::All, (enough - 1) as nat));
        lemma_holds_ends(d, b, x, (fuel - 1) as nat, (enough - 1) as nat);
        assert(owns(d, n, b) && holds_within(d, b, x, (enough - 1) as nat));
    }
}

/// How many of the first `len` numbers lie below `bound`.
spec fn count_below(numbers: Seq<nat>, bound: nat, len: nat) -> nat
    decreases len,
{
    if len == 0 {
        0
    } else {
        count_below(numbers, bound, (len - 1) as nat) + (if numbers[len - 1] < bound {
            1nat
        } else {
            0nat
        })
    }
}

proof fn lemma_count_below(numbers: Seq<nat>, low: nat, high: nat, at: nat, len: nat)
    requires
        low <= high,
    ensures
        count_below(numbers, low, len) <= count_below(numbers, high, len) <= len,
        at < len && low <= numbers[at as int] ==> count_below(numbers, low, len) < len,
        at < len && low <= numbers[at as int] < high ==> count_below(numbers, low, len)
            < count_below(numbers, high, len),
    decreases len,
{
    if len > 0 {
        lemma_count_below(numbers, low, high, at, (len - 1) as nat);
    }
}

/// Numbers that fall from owner to owned can be packed into layers.
pub proof fn lemma_numbers_make_layers(d: DomView, numbers: Seq<nat>)
    requires
        closed_links(d),
        numbers.len() == d.len(),
        forall|a: NodePtr, b: NodePtr| #[trigger]
            owns(d, a, b) ==> b < d.len() && numbers[b as int] < numbers[a as int],
    ensures
        acyclic(d),
{
    let layers = Seq::new(d.len(), |i: int| count_below(numbers, numbers[i], d.len()));
    assert forall|i: int| 0 <= i < d.len() implies #[trigger] layers[i] < d.len() by {
        lemma_count_below(numbers, numbers[i], numbers[i], i as nat, d.len());
    }
    assert forall|a: NodePtr, b: NodePtr| #[trigger] owns(d, a, b) implies layers[b as int]
        < layers[a as int] by {
        lemma_count_below(
            numbers,
            numbers[b as int],
            numbers[a as int],
            b as nat,
            d.len(),
        );
    }
    assert(owner_layers(d, layers));
}

/// A document stays acyclic when one node comes to own nodes that do not hold
/// it, new ones among them.
pub proof fn lemma_new_links_stay_acyclic(d: DomView, e: DomView, p: NodePtr)
    requires
        acyclic(d),
        closed_links(e),
        d.len() <= e.len(),
        p < d.len(),
        forall|a: NodePtr, b: NodePtr| #[trigger]
            owns(e, a, b) ==> owns(d, a, b) || a == p && (b >= d.len() || !holds(d, b, p)),
    ensures
        acyclic(e),
{
    let layers = choose|layers: Seq<nat>| owner_layers(d, layers);
    let numbers = Seq::new(
        e.len(),
        |i: int|
            if i >= d.len() {
                0nat
            } else if holds(d, i as NodePtr, p) {
                layers[i] + 1 + d.len()
            } else {
                layers[i] + 1
            },
    );
    assert(holds_within(d, p, p, 0));
    assert forall|a: NodePtr, b: NodePtr| #[trigger] owns(e, a, b) implies b < e.len()
        && numbers[b as int] < numbers[a as int] by {
        let all = followed(e[a as int], Reach::All);
        assert(node_ok(e[a as int], e.len()));
        let i = choose|i: int| 0 <= i < all.len() && all[i] == b;
        assert(all[i] < e.len());
        if owns(d, a, b) {
            lemma_owned_is_lower(d, layers, a, b);
            if holds(d, b, p) {
                lemma_owner_holds(d, a, b, p);
            }
        } else if b < d.len() {
            assert(layers[b as int] < d.len());
        }
    }
    lemma_numbers_make_layers(e, numbers);
}

} // verus!
