//! What the registries of a page list.

use crate::dom::attributes::Pair;
use crate::dom::node::{finite_from, followed, DomView, NodePtr, NodeView, Reach};
use crate::dom::routes::{gathered, gathered_all, lemma_gathered_join, lemma_gathered_lists_all,
    lemma_gathered_one, lemma_routes_end, lists_all, Below};
use crate::js::custom_elements::{latest, not_waiting_for, observes, waiting_for, CeDefinition,
    Handle, ReactionView};
use crate::js::network::{with_arrived, NetworkTaskResult};
use crate::js::reactions::{adoption_order, adoption_order_all, upgrade_attributes};
use crate::js::registry::{listening, nodes_below, without_listener, Ids, ListenerView};
use crate::js::timers::{split_ready, MAX_READY_TIMERS, TimerEntry};
use vstd::prelude::*;

verus! {

/// An event is told to the listeners of its node and type, in the order in which
/// they were added.
pub proof fn law_listeners_are_told_in_order(
    l: Seq<ListenerView>,
    node_id: u32,
    event_type: Seq<char>,
)
    ensures
        listening(l, node_id, event_type) == l.filter(
            |x: ListenerView| x.node_id == node_id && x.event_type == event_type,
        ).map_values(|x: ListenerView| x.callback),
    decreases l.len(),
{
    reveal(Seq::filter);
    let q = |x: ListenerView| x.node_id == node_id && x.event_type == event_type;
    let f = |x: ListenerView| x.callback;
    if l.len() == 0 {
        assert(listening(l, node_id, event_type) =~= l.filter(q).map_values(f));
    } else {
        law_listeners_are_told_in_order(l.drop_last(), node_id, event_type);
        let front = l.drop_last().filter(q);
        if q(l.last()) {
            assert(l.filter(q) == front.push(l.last()));
            assert(front.push(l.last()).map_values(f) =~= front.map_values(f).push(f(l.last())));
        }
    }
}

/// A listener that is removed is gone, and all others stay as they were.
pub proof fn law_other_listeners_stay(
    l: Seq<ListenerView>,
    node_id: u32,
    event_type: Seq<char>,
    callback: Handle,
)
    ensures
        without_listener(l, node_id, event_type, callback) == l.filter(
            |x: ListenerView|
                x.node_id != node_id || x.event_type != event_type || x.callback != callback,
        ),
    decreases l.len(),
{
    reveal(Seq::filter);
    if l.len() > 0 {
        law_other_listeners_stay(l.drop_last(), node_id, event_type, callback);
    }
}

/// Those who wait for a name are told in the order in which they came, and those
/// who wait for another name keep waiting.
pub proof fn law_waiting_ends_with_the_name(w: Seq<(Seq<char>, Handle)>, name: Seq<char>)
    ensures
        waiting_for(w, name) == w.filter(|x: (Seq<char>, Handle)| x.0 == name).map_values(
            |x: (Seq<char>, Handle)| x.1,
        ),
        not_waiting_for(w, name) == w.filter(|x: (Seq<char>, Handle)| x.0 != name),
    decreases w.len(),
{
    reveal(Seq::filter);
    let q = |x: (Seq<char>, Handle)| x.0 == name;
    let f = |x: (Seq<char>, Handle)| x.1;
    if w.len() == 0 {
        assert(waiting_for(w, name) =~= w.filter(q).map_values(f));
    } else {
        law_waiting_ends_with_the_name(w.drop_last(), name);
        let front = w.drop_last().filter(q);
        if q(w.last()) {
            assert(w.filter(q) == front.push(w.last()));
            assert(front.push(w.last()).map_values(f) =~= front.map_values(f).push(f(w.last())));
        }
    }
}

/// The definition of a name is the last one of that name.
pub proof fn law_last_definition_counts(defs: Seq<CeDefinition>, name: Seq<char>)
    ensures
        match latest(defs, name) {
            Some(i) => 0 <= i < defs.len() && defs[i].name@ == name && forall|j: int|
                i < j < defs.len() ==> (#[trigger] defs[j]).name@ != name,
            None => forall|j: int| 0 <= j < defs.len() ==> (#[trigger] defs[j]).name@ != name,
        },
    decreases defs.len(),
{
    if defs.len() > 0 && defs.last().name@ != name {
        let front = defs.drop_last();
        law_last_definition_counts(front, name);
        assert forall|j: int| 0 <= j < front.len() implies #[trigger] defs[j] == front[j] by {}
    }
}

/// Of the results that arrived under an id the last is kept, and results under
/// other ids stay.
pub proof fn law_arrived_results_are_kept(
    completed: Map<u32, NetworkTaskResult>,
    arrived: Seq<(u32, NetworkTaskResult)>,
    id: u32,
    at: int,
)
    requires
        -1 <= at < arrived.len(),
        at >= 0 ==> arrived[at].0 == id,
        forall|j: int| at < j < arrived.len() ==> (#[trigger] arrived[j]).0 != id,
    ensures
        ({
            let all = with_arrived(completed, arrived);
            if at >= 0 {
                all.contains_key(id) && all[id] == arrived[at].1
            } else {
                all.contains_key(id) == completed.contains_key(id) && (completed.contains_key(id)
                    ==> all[id] == completed[id])
            }
        }),
    decreases arrived.len(),
{
    if arrived.len() > 0 {
        let rest = arrived.drop_first();
        let next = completed.insert(arrived[0].0, arrived[0].1);
        assert forall|j: int| 0 <= j < rest.len() implies #[trigger] rest[j] == arrived[j + 1] by {}
        if at > 0 {
            law_arrived_results_are_kept(next, rest, id, at - 1);
        } else {
            law_arrived_results_are_kept(next, rest, id, -1);
            if at < 0 {
                assert(arrived[0].0 != id);
            }
        }
    }
}

/// The timers that run in a turn are those that are due, in the order in which they
/// were set, and no more than a turn may run; where all that are due run, those
/// that wait keep their order too.
pub proof fn law_due_timers_run_in_order(timers: Seq<TimerEntry>, now: u64)
    ensures
        ({
            let due = timers.filter(|t: TimerEntry| t.deadline <= now);
            let (ready, pending) = split_ready(timers, now);
            &&& due.len() <= MAX_READY_TIMERS ==> ready == due && pending == timers.filter(
                |t: TimerEntry| t.deadline > now,
            )
            &&& due.len() > MAX_READY_TIMERS ==> ready == due.take(MAX_READY_TIMERS as int)
        }),
    decreases timers.len(),
{
    reveal(Seq::filter);
    let q = |t: TimerEntry| t.deadline <= now;
    if timers.len() > 0 {
        law_due_timers_run_in_order(timers.drop_last(), now);
        let front = timers.drop_last().filter(q);
        let due = timers.filter(q);
        if q(timers.last()) {
            assert(due == front.push(timers.last()));
            if front.len() >= MAX_READY_TIMERS {
                assert(front.take(MAX_READY_TIMERS as int) =~= due.take(MAX_READY_TIMERS as int));
                if front.len() == MAX_READY_TIMERS {
                    assert(front =~= due.take(MAX_READY_TIMERS as int));
                }
            }
        } else {
            assert(due == front);
        }
    }
}

/// The nodes that the registry holds are exactly those that it gave an id below
/// the given one.
pub proof fn law_held_nodes_are_those_with_an_id(v: Ids, k: nat, n: NodePtr)
    requires
        k <= u32::MAX + 1,
    ensures
        nodes_below(v, k).contains(n) <==> exists|id: u32|
            id < k && #[trigger] v.nodes.contains_key(id) && v.nodes[id] == n,
    decreases k,
{
    if k > 0 {
        law_held_nodes_are_those_with_an_id(v, (k - 1) as nat, n);
        let last = (k - 1) as u32;
        let front = nodes_below(v, (k - 1) as nat);
        let all = nodes_below(v, k);
        if v.nodes.contains_key(last) {
            assert(all == front.push(v.nodes[last]));
            if front.contains(n) {
                let i = choose|i: int| 0 <= i < front.len() && front[i] == n;
                assert(all[i] == n);
            }
            assert(all[all.len() - 1] == v.nodes[last]);
            if all.contains(n) && !front.contains(n) {
                let i = choose|i: int| 0 <= i < all.len() && all[i] == n;
                if i < front.len() {
                    assert(front[i] == n);
                }
            }
        }
        if exists|id: u32| id < k && #[trigger] v.nodes.contains_key(id) && v.nodes[id] == n {
            let id = choose|id: u32|
                id < k && #[trigger] v.nodes.contains_key(id) && v.nodes[id] == n;
            if id < k - 1 {
                assert(front.contains(n));
            } else {
                assert(id == last);
            }
        }
    }
}

/// An upgraded element is told each of its attributes that it observes, in their
/// order, as new.
pub proof fn law_observed_attributes_are_told(def: CeDefinition, pairs: Seq<Pair>)
    ensures
        match def.attribute_changed {
            Some(callback) => upgrade_attributes(def, pairs) == pairs.filter(
                |x: Pair|
                    exists|i: int|
                        0 <= i < def.observed_attributes@.len()
                            && (#[trigger] def.observed_attributes@[i])@ == x.0,
            ).map_values(
                |x: Pair|
                    ReactionView::AttributeChanged {
                        callback,
                        name: x.0,
                        old_value: None,
                        new_value: Some(x.1),
                    },
            ),
            None => upgrade_attributes(def, pairs).len() == 0,
        },
    decreases pairs.len(),
{
    reveal(Seq::filter);
    if pairs.len() > 0 {
        law_observed_attributes_are_told(def, pairs.drop_last());
    }
    if let Some(callback) = def.attribute_changed {
        let q = |x: Pair|
            exists|i: int|
                0 <= i < def.observed_attributes@.len()
                    && (#[trigger] def.observed_attributes@[i])@ == x.0;
        let f = |x: Pair|
            ReactionView::AttributeChanged {
                callback,
                name: x.0,
                old_value: None,
                new_value: Some(x.1),
            };
        if pairs.len() == 0 {
            assert(upgrade_attributes(def, pairs) =~= pairs.filter(q).map_values(f));
        } else {
            let front = pairs.drop_last().filter(q);
            assert(q(pairs.last()) == observes(def, pairs.last().0));
            if q(pairs.last()) {
                assert(pairs.filter(q) == front.push(pairs.last()));
                assert(front.push(pairs.last()).map_values(f) =~= front.map_values(f).push(
                    f(pairs.last()),
                ));
            }
        }
    }
}

/// The child lists of elements, back to front.
pub open spec fn reversed_lists(d: DomView) -> Below {
    |m: NodePtr|
        match d[m as int] {
            NodeView::Element(el) => el.children.reverse(),
            _ => Seq::empty(),
        }
}

/// An element on its own.
pub open spec fn adopted_alone(d: DomView) -> spec_fn(NodePtr) -> Seq<NodePtr> {
    |m: NodePtr|
        if d[m as int] is Element {
            seq![m]
        } else {
            Seq::empty()
        }
}

/// Adoption meets every element at or below a node, at every depth, once: a parent
/// before its children, and the last child first.
pub proof fn law_adoption_meets_every_element(d: DomView, n: NodePtr)
    requires
        finite_from(d, n, Reach::ElementChildren),
    ensures
        lists_all(adopted_alone(d), reversed_lists(d), n, adoption_order(d, n, d.len())),
{
    let below = reversed_lists(d);
    assert forall|m: NodePtr, i: int| m < d.len() && 0 <= i < below(m).len() implies followed(
        d[m as int],
        Reach::ElementChildren,
    ).contains(#[trigger] below(m)[i]) by {
        let kids = d[m as int]->Element_0.children;
        assert(below(m)[i] == kids[kids.len() - 1 - i]);
    }
    lemma_routes_end(d, below, n, Reach::ElementChildren, d.len());
    lemma_gathered_lists_all(adopted_alone(d), below, n, d.len());
    lemma_adoption_gathered(d, n, d.len());
}

proof fn lemma_adoption_gathered(d: DomView, n: NodePtr, fuel: nat)
    ensures
        adoption_order(d, n, fuel) == gathered(adopted_alone(d), reversed_lists(d), n, fuel),
    decreases fuel, 1nat, 0nat,
{
    let (own, below) = (adopted_alone(d), reversed_lists(d));
    match d[n as int] {
        NodeView::Element(el) => {
            lemma_adoption_gathered_all(d, el.children, fuel);
        },
        _ => {
            assert(gathered(own, below, n, fuel) =~= Seq::<NodePtr>::empty());
        },
    }
}

proof fn lemma_adoption_gathered_all(d: DomView, kids: Seq<NodePtr>, fuel: nat)
    ensures
        adoption_order_all(d, kids, fuel) == gathered_all(
            adopted_alone(d),
            reversed_lists(d),
            kids.reverse(),
            fuel,
        ),
    decreases fuel, 0nat, kids.len(),
{
    if kids.len() > 0 && fuel > 0 {
        let (own, below) = (adopted_alone(d), reversed_lists(d));
        let front = kids.drop_last();
        lemma_adoption_gathered(d, kids.last(), (fuel - 1) as nat);
        lemma_adoption_gathered_all(d, front, fuel);
        assert(kids.reverse() =~= seq![kids.last()] + front.reverse());
        lemma_gathered_join(own, below, seq![kids.last()], front.reverse(), fuel);
        lemma_gathered_one(own, below, kids.last(), fuel);
    }
}

} // verus!
