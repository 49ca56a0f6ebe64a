//! Whom the walks over inserted and removed subtrees reach, and what they tell.

use crate::dom::node::{opt_seq, DomView, NodePtr, NodeView};
use crate::dom::routes::{arrival, Below};
use crate::js::custom_elements::{enqueued, latest, pending, ReactionView};
use crate::js::element_names::is_custom_name;
use crate::js::forms::{form_step, form_steps, law_forms_are_told_last, step_ok, steps_ok,
    subject_of, FormStep};
use crate::js::lifecycle::{all_finite, formed_step, in_document, lemma_step_load, load, met, pushed,
    stops, upgrades, visited, walk_step, walked, LifecyclePhase, WalkView};
use crate::js::registry::{id_of, law_registration_wastes_no_ids, next_after, registered,
    RegistryView};
use vstd::prelude::*;

verus! {

/// The links through which elements hold others: child lists, template contents
/// and shadow roots.
pub open spec fn element_links(d: DomView) -> Below {
    |m: NodePtr|
        match d[m as int] {
            NodeView::Element(el) => el.children + opt_seq(el.template_contents) + opt_seq(
                el.shadow_root,
            ),
            _ => Seq::empty(),
        }
}

/// Whether `n` is one of some roots, or held by them directly or through others.
pub open spec fn is_within(d: DomView, roots: Seq<NodePtr>, n: NodePtr) -> bool {
    exists|i: int, route: Seq<int>|
        0 <= i < roots.len() && #[trigger] arrival(element_links(d), roots[i], route) == Some(n)
}

proof fn lemma_within_one(d: DomView, m: NodePtr, n: NodePtr)
    requires
        exists|route: Seq<int>| #[trigger] arrival(element_links(d), m, route) == Some(n),
    ensures
        m == n || is_within(d, element_links(d)(m), n),
{
    let below = element_links(d);
    let route = choose|route: Seq<int>| #[trigger] arrival(below, m, route) == Some(n);
    if route.len() > 0 {
        let kids = below(m);
        let rest = route.drop_first();
        assert(arrival(below, kids[route[0]], rest) == Some(n));
    }
}

proof fn lemma_within_down(d: DomView, m: NodePtr, n: NodePtr)
    requires
        is_within(d, element_links(d)(m), n),
    ensures
        exists|route: Seq<int>| #[trigger] arrival(element_links(d), m, route) == Some(n),
{
    let below = element_links(d);
    let kids = below(m);
    let (i, rest) = choose|i: int, rest: Seq<int>|
        0 <= i < kids.len() && #[trigger] arrival(below, kids[i], rest) == Some(n);
    let route = seq![i] + rest;
    assert(route.drop_first() =~= rest);
    assert(arrival(below, m, route) == Some(n));
}

proof fn lemma_within_join(d: DomView, a: Seq<NodePtr>, b: Seq<NodePtr>, n: NodePtr)
    ensures
        is_within(d, a + b, n) <==> is_within(d, a, n) || is_within(d, b, n),
{
    let below = element_links(d);
    let s = a + b;
    if is_within(d, s, n) {
        let (i, route) = choose|i: int, route: Seq<int>|
            0 <= i < s.len() && #[trigger] arrival(below, s[i], route) == Some(n);
        if i < a.len() {
            assert(arrival(below, a[i], route) == Some(n));
        } else {
            assert(arrival(below, b[i - a.len()], route) == Some(n));
        }
    }
    if is_within(d, a, n) {
        let (i, route) = choose|i: int, route: Seq<int>|
            0 <= i < a.len() && #[trigger] arrival(below, a[i], route) == Some(n);
        assert(arrival(below, s[i], route) == Some(n));
    }
    if is_within(d, b, n) {
        let (i, route) = choose|i: int, route: Seq<int>|
            0 <= i < b.len() && #[trigger] arrival(below, b[i], route) == Some(n);
        assert(arrival(below, s[a.len() + i], route) == Some(n));
    }
}

proof fn lemma_within_same(d: DomView, a: Seq<NodePtr>, b: Seq<NodePtr>, n: NodePtr)
    requires
        forall|x: NodePtr| a.contains(x) ==> b.contains(x),
        is_within(d, a, n),
    ensures
        is_within(d, b, n),
{
    let below = element_links(d);
    let (i, route) = choose|i: int, route: Seq<int>|
        0 <= i < a.len() && #[trigger] arrival(below, a[i], route) == Some(n);
    assert(b.contains(a[i]));
    let j = choose|j: int| 0 <= j < b.len() && b[j] == a[i];
    assert(arrival(below, b[j], route) == Some(n));
}

/// What a visit puts back on the stack is what the element holds.
proof fn lemma_step_within(w: WalkView, d: DomView, document: NodePtr, phase: LifecyclePhase, n: NodePtr)
    requires
        w.stack.len() > 0,
    ensures
        is_within(d, w.stack, n) <==> n == w.stack.last() || is_within(
            d,
            walk_step(w, d, document, phase).stack,
            n,
        ),
{
    let m = w.stack.last();
    let rest = w.stack.drop_last();
    let below = element_links(d);
    assert(w.stack =~= rest + seq![m]);
    lemma_within_join(d, rest, seq![m], n);
    let one = seq![m];
    let next = walk_step(w, d, document, phase).stack;
    assert(is_within(d, one, n) <==> m == n || is_within(d, below(m), n)) by {
        if is_within(d, one, n) {
            let (i, route) = choose|i: int, route: Seq<int>|
                0 <= i < one.len() && #[trigger] arrival(below, one[i], route) == Some(n);
            assert(arrival(below, m, route) == Some(n));
            lemma_within_one(d, m, n);
        }
        if m == n {
            assert(arrival(below, one[0], Seq::<int>::empty()) == Some(n));
        } else if is_within(d, below(m), n) {
            lemma_within_down(d, m, n);
            let route = choose|route: Seq<int>| #[trigger] arrival(below, m, route) == Some(n);
            assert(arrival(below, one[0], route) == Some(n));
        }
    }
    match d[m as int] {
        NodeView::Element(el) => {
            let upgraded = in_document(d, document, m) && upgrades(w.registry, d, m, phase);
            let more = pushed(el, upgraded);
            assert(next == rest + more);
            lemma_within_join(d, rest, more, n);
            let kids = el.children;
            let template = opt_seq(el.template_contents);
            let shadow = opt_seq(el.shadow_root);
            let all = kids + template + shadow;
            assert(below(m) == all);
            assert forall|x: NodePtr| more.contains(x) <==> all.contains(x) by {
                lemma_pushed_same(kids, template, shadow, upgraded, x);
            }
            if is_within(d, more, n) {
                lemma_within_same(d, more, all, n);
            }
            if is_within(d, all, n) {
                lemma_within_same(d, all, more, n);
            }
        },
        _ => {
            assert(next == rest);
            assert(below(m) =~= Seq::<NodePtr>::empty());
            assert(!is_within(d, below(m), n));
        },
    }
}

proof fn lemma_pushed_same(
    kids: Seq<NodePtr>,
    template: Seq<NodePtr>,
    shadow: Seq<NodePtr>,
    upgraded: bool,
    x: NodePtr,
)
    ensures
        (if upgraded {
            kids.reverse() + shadow + template
        } else {
            template + shadow + kids.reverse()
        }).contains(x) <==> (kids + template + shadow).contains(x),
{
    let back = kids.reverse();
    assert(back.contains(x) <==> kids.contains(x)) by {
        if back.contains(x) {
            let i = choose|i: int| 0 <= i < back.len() && back[i] == x;
            assert(kids[kids.len() - 1 - i] == x);
        }
        if kids.contains(x) {
            let i = choose|i: int| 0 <= i < kids.len() && kids[i] == x;
            assert(back[kids.len() - 1 - i] == x);
        }
    }
    lemma_three(kids, template, shadow, x);
    lemma_three(back, shadow, template, x);
    lemma_three(template, shadow, back, x);
}

proof fn lemma_three(a: Seq<NodePtr>, b: Seq<NodePtr>, c: Seq<NodePtr>, x: NodePtr)
    ensures
        (a + b + c).contains(x) <==> a.contains(x) || b.contains(x) || c.contains(x),
{
    let s = a + b + c;
    if s.contains(x) {
        let i = choose|i: int| 0 <= i < s.len() && s[i] == x;
        if i < a.len() {
            assert(a[i] == x);
        } else if i < a.len() + b.len() {
            assert(b[i - a.len()] == x);
        } else {
            assert(c[i - a.len() - b.len()] == x);
        }
    }
    if a.contains(x) {
        let i = choose|i: int| 0 <= i < a.len() && a[i] == x;
        assert(s[i] == x);
    }
    if b.contains(x) {
        let i = choose|i: int| 0 <= i < b.len() && b[i] == x;
        assert(s[a.len() + i] == x);
    }
    if c.contains(x) {
        let i = choose|i: int| 0 <= i < c.len() && c[i] == x;
        assert(s[a.len() + b.len() + i] == x);
    }
}

proof fn lemma_met(
    w: WalkView,
    d: DomView,
    document: NodePtr,
    phase: LifecyclePhase,
    replies: Seq<Seq<FormStep>>,
    fuel: nat,
    n: NodePtr,
)
    requires
        all_finite(d, w.stack),
        load(d, w.stack) <= fuel,
    ensures
        met(w, d, document, phase, replies, fuel).contains(n) <==> stops(d, document, n)
            && is_within(d, w.stack, n),
    decreases fuel,
{
    if w.stack.len() == 0 {
        assert(!is_within(d, w.stack, n));
    } else {
        let m = w.stack.last();
        lemma_step_load(w, d, document, phase);
        lemma_step_within(w, d, document, phase, n);
        let less = (fuel - 1) as nat;
        if stops(d, document, m) {
            let e = formed_step(w, d, document, phase, replies.first());
            lemma_met(e, d, document, phase, replies.drop_first(), less, n);
            let rest = met(e, d, document, phase, replies.drop_first(), less);
            let all = seq![m] + rest;
            assert(all.contains(n) <==> n == m || rest.contains(n)) by {
                if all.contains(n) {
                    let i = choose|i: int| 0 <= i < all.len() && all[i] == n;
                    if i > 0 {
                        assert(rest[i - 1] == n);
                    }
                }
                if n == m {
                    assert(all[0] == n);
                } else if rest.contains(n) {
                    let i = choose|i: int| 0 <= i < rest.len() && rest[i] == n;
                    assert(all[i + 1] == n);
                }
            }
        } else {
            lemma_met(walk_step(w, d, document, phase), d, document, phase, replies, less, n);
        }
    }
}

/// A walk meets exactly the elements in the document that are among its roots or
/// held by them, through child lists, template contents and shadow roots, however
/// deep, and whether or not elements above them are upgraded on the way.
pub proof fn law_walks_meet_every_connected_element(
    w: WalkView,
    d: DomView,
    document: NodePtr,
    phase: LifecyclePhase,
    replies: Seq<Seq<FormStep>>,
    n: NodePtr,
)
    requires
        all_finite(d, w.stack),
    ensures
        met(w, d, document, phase, replies, load(d, w.stack)).contains(n) <==> d[n as int]
            is Element && in_document(d, document, n) && is_within(d, w.stack, n),
{
    lemma_met(w, d, document, phase, replies, load(d, w.stack), n);
}

/// Whether elements have a state only if they have an id.
pub open spec fn states_given(v: RegistryView) -> bool {
    forall|id: u32| #[trigger] v.ce.states.contains_key(id) ==> id < v.ids.next_id
}

/// Whether `v` comes after `u` in a walk: ids and reactions were added, and
/// nothing was taken away.
spec fn carries_on(u: RegistryView, v: RegistryView) -> bool {
    &&& v.ce.definitions == u.ce.definitions
    &&& v.ce.states == u.ce.states
    &&& u.ids.next_id <= v.ids.next_id
    &&& forall|n: NodePtr| #[trigger]
        u.ids.ids.contains_key(n) ==> v.ids.ids.contains_key(n) && v.ids.ids[n] == u.ids.ids[n]
    &&& forall|n: NodePtr| #[trigger]
        v.ids.ids.contains_key(n) && !u.ids.ids.contains_key(n) ==> u.ids.next_id <= v.ids.ids[n]
    &&& forall|id: u32| (#[trigger] pending(u.ce, id)).is_prefix_of(pending(v.ce, id))
}

spec fn has_room(v: RegistryView, d: DomView) -> bool {
    d.len() <= usize::MAX && next_after(v.ids, d.len()) <= u32::MAX
}

proof fn lemma_carries_join(u: RegistryView, v: RegistryView, w: RegistryView)
    requires
        carries_on(u, v),
        carries_on(v, w),
    ensures
        carries_on(u, w),
{
    assert forall|id: u32| (#[trigger] pending(u.ce, id)).is_prefix_of(pending(w.ce, id)) by {
        assert(pending(u.ce, id).is_prefix_of(pending(v.ce, id)));
        assert(pending(v.ce, id).is_prefix_of(pending(w.ce, id)));
        let (a, c) = (pending(u.ce, id), pending(w.ce, id));
        assert(a =~= c.subrange(0, a.len() as int));
    }
}

proof fn lemma_registering_carries(v: RegistryView, d: DomView, n: NodePtr)
    requires
        has_room(v, d),
        n < d.len(),
    ensures
        carries_on(v, RegistryView { ids: registered(v.ids, n), ..v }),
        next_after(registered(v.ids, n), d.len()) == next_after(v.ids, d.len()),
        registered(v.ids, n).ids.contains_key(n),
        registered(v.ids, n).ids[n] == id_of(v.ids, n),
{
    law_registration_wastes_no_ids(v.ids, n, d.len());
    lemma_same_pending(v, RegistryView { ids: registered(v.ids, n), ..v });
}

proof fn lemma_same_pending(v: RegistryView, w: RegistryView)
    requires
        v.ce == w.ce,
    ensures
        forall|id: u32| (#[trigger] pending(v.ce, id)).is_prefix_of(pending(w.ce, id)),
{
    assert forall|id: u32| (#[trigger] pending(v.ce, id)).is_prefix_of(pending(w.ce, id)) by {
        let a = pending(v.ce, id);
        assert(a =~= a.subrange(0, a.len() as int));
    }
}

proof fn lemma_enqueueing_carries(v: RegistryView, id: u32, r: ReactionView)
    ensures
        ({
            let w = RegistryView { ce: enqueued(v.ce, id, r), ..v };
            &&& carries_on(v, w)
            &&& pending(w.ce, id) == pending(v.ce, id).push(r)
        }),
{
    let w = RegistryView { ce: enqueued(v.ce, id, r), ..v };
    assert forall|k: u32| (#[trigger] pending(v.ce, k)).is_prefix_of(pending(w.ce, k)) by {
        let (a, b) = (pending(v.ce, k), pending(w.ce, k));
        assert(a =~= b.subrange(0, a.len() as int));
    }
}

/// What a visit enqueues.
pub open spec fn told_of(v: RegistryView, d: DomView, n: NodePtr, phase: LifecyclePhase) -> Option<
    ReactionView,
> {
    match latest(v.ce.definitions, d[n as int]->Element_0.tag_name) {
        Some(k) => {
            let def = v.ce.definitions[k];
            match phase {
                LifecyclePhase::Connected => if upgrades(v, d, n, phase) {
                    Some(ReactionView::Upgrade { definition: k as usize, is_connected: true })
                } else {
                    match def.connected {
                        Some(callback) => Some(
                            ReactionView::Callback {
                                callback,
                                args: Seq::empty(),
                                native_connect: true,
                            },
                        ),
                        None => Some(ReactionView::DynamicConnected),
                    }
                },
                LifecyclePhase::Disconnected => match def.disconnected {
                    Some(callback) => Some(
                        ReactionView::Callback {
                            callback,
                            args: Seq::empty(),
                            native_connect: false,
                        },
                    ),
                    None => None,
                },
            }
        },
        None => None,
    }
}

proof fn lemma_visit_carries(v: RegistryView, d: DomView, n: NodePtr, phase: LifecyclePhase)
    requires
        has_room(v, d),
        n < d.len(),
        d[n as int] is Element,
    ensures
        carries_on(v, visited(v, d, n, phase)),
        next_after(visited(v, d, n, phase).ids, d.len()) == next_after(v.ids, d.len()),
        told_of(v, d, n, phase) matches Some(r) ==> {
            let w = visited(v, d, n, phase);
            &&& w.ids.ids.contains_key(n)
            &&& pending(w.ce, w.ids.ids[n]).len() > pending(v.ce, w.ids.ids[n]).len()
            &&& pending(w.ce, w.ids.ids[n]).last() == r
        },
{
    let e = RegistryView { ids: registered(v.ids, n), ..v };
    let id = id_of(v.ids, n);
    lemma_registering_carries(v, d, n);
    lemma_same_pending(v, v);
    lemma_same_pending(e, e);
    if let Some(r) = told_of(v, d, n, phase) {
        lemma_enqueueing_carries(e, id, r);
        let f = RegistryView { ce: enqueued(v.ce, id, r), ..e };
        lemma_carries_join(v, e, f);
        assert(registered(registered(v.ids, n), n) == registered(v.ids, n));
        assert(id_of(registered(v.ids, n), n) == id);
        assert(visited(v, d, n, phase) == f);
    }
}

proof fn lemma_form_step_carries(v: RegistryView, d: DomView, s: FormStep)
    requires
        has_room(v, d),
        step_ok(s, d.len()),
    ensures
        carries_on(v, form_step(v, d, s)),
        next_after(form_step(v, d, s).ids, d.len()) == next_after(v.ids, d.len()),
{
    let w = form_step(v, d, s);
    law_forms_are_told_last_one(v, d, s);
    let n = subject_of(s);
    lemma_registering_carries(v, d, n);
    let e = RegistryView { ids: registered(v.ids, n), ..v };
    if let FormStep::Owner { node, form: Some(form) } = s {
        lemma_registering_carries(e, d, form);
    }
}

proof fn law_forms_are_told_last_one(v: RegistryView, d: DomView, s: FormStep)
    ensures
        forall|id: u32|
            (#[trigger] pending(v.ce, id)).is_prefix_of(pending(form_step(v, d, s).ce, id)),
{
    let one = seq![s];
    assert(one.drop_last() =~= Seq::<FormStep>::empty());
    assert(form_steps(v, d, one.drop_last()) == v);
    assert(form_steps(v, d, one) == form_step(v, d, s));
    assert forall|id: u32|
        (#[trigger] pending(v.ce, id)).is_prefix_of(pending(form_step(v, d, s).ce, id)) by {
        law_forms_are_told_last(v, d, one, id);
    }
}

proof fn lemma_form_steps_carry(v: RegistryView, d: DomView, steps: Seq<FormStep>)
    requires
        has_room(v, d),
        steps_ok(steps, d.len()),
    ensures
        carries_on(v, form_steps(v, d, steps)),
        next_after(form_steps(v, d, steps).ids, d.len()) == next_after(v.ids, d.len()),
    decreases steps.len(),
{
    if steps.len() == 0 {
        lemma_same_pending(v, v);
    } else {
        let front = steps.drop_last();
        assert forall|i: int| 0 <= i < front.len() implies step_ok(#[trigger] front[i], d.len()) by {
            assert(step_ok(steps[i], d.len()));
        }
        lemma_form_steps_carry(v, d, front);
        assert(step_ok(steps[steps.len() - 1], d.len()));
        let u = form_steps(v, d, front);
        lemma_form_step_carries(u, d, steps.last());
        lemma_carries_join(v, u, form_step(u, d, steps.last()));
    }
}

/// Whether all replies of a form source name nodes that are there.
pub open spec fn replies_ok(replies: Seq<Seq<FormStep>>, d: DomView) -> bool {
    forall|i: int| 0 <= i < replies.len() ==> steps_ok(#[trigger] replies[i], d.len())
}

proof fn lemma_walk_carries(
    w: WalkView,
    d: DomView,
    document: NodePtr,
    phase: LifecyclePhase,
    replies: Seq<Seq<FormStep>>,
    fuel: nat,
)
    requires
        all_finite(d, w.stack),
        has_room(w.registry, d),
        replies_ok(replies, d),
        met(w, d, document, phase, replies, fuel).len() <= replies.len(),
    ensures
        carries_on(w.registry, walked(w, d, document, phase, replies, fuel)),
    decreases fuel,
{
    if w.stack.len() == 0 || fuel == 0 {
        lemma_same_pending(w.registry, w.registry);
    } else {
        let m = w.stack.last();
        lemma_step_load(w, d, document, phase);
        let e = walk_step(w, d, document, phase);
        let less = (fuel - 1) as nat;
        if stops(d, document, m) {
            lemma_visit_carries(w.registry, d, m, phase);
            let f = formed_step(w, d, document, phase, replies.first());
            let rest = replies.drop_first();
            assert(met(w, d, document, phase, replies, fuel).len() == 1 + met(
                f,
                d,
                document,
                phase,
                rest,
                less,
            ).len());
            assert(replies[0] == replies.first());
            assert(steps_ok(replies.first(), d.len()));
            lemma_form_steps_carry(e.registry, d, replies.first());
            lemma_carries_join(w.registry, e.registry, f.registry);
            assert(replies_ok(rest, d)) by {
                assert forall|i: int| 0 <= i < rest.len() implies steps_ok(
                    #[trigger] rest[i],
                    d.len(),
                ) by {
                    assert(rest[i] == replies[i + 1]);
                }
            }
            lemma_walk_carries(f, d, document, phase, rest, less);
            lemma_carries_join(
                w.registry,
                f.registry,
                walked(f, d, document, phase, rest, less),
            );
        } else {
            assert(e.registry == w.registry);
            lemma_walk_carries(e, d, document, phase, replies, less);
        }
    }
}

proof fn lemma_told_stays(u: RegistryView, v: RegistryView, d: DomView, n: NodePtr, phase: LifecyclePhase)
    requires
        carries_on(u, v),
        states_given(u),
        u.ids.next_id <= v.ids.next_id,
    ensures
        told_of(u, d, n, phase) == told_of(v, d, n, phase),
{
}

proof fn lemma_walk_tells(
    start: RegistryView,
    w: WalkView,
    d: DomView,
    document: NodePtr,
    phase: LifecyclePhase,
    replies: Seq<Seq<FormStep>>,
    fuel: nat,
    n: NodePtr,
    r: ReactionView,
)
    requires
        all_finite(d, w.stack),
        load(d, w.stack) <= fuel,
        has_room(w.registry, d),
        carries_on(start, w.registry),
        states_given(start),
        replies_ok(replies, d),
        met(w, d, document, phase, replies, fuel).len() <= replies.len(),
        stops(d, document, n),
        is_within(d, w.stack, n),
        told_of(start, d, n, phase) == Some(r),
    ensures
        ({
            let v = walked(w, d, document, phase, replies, fuel);
            let id = v.ids.ids[n];
            &&& v.ids.ids.contains_key(n)
            &&& exists|i: int|
                pending(start.ce, id).len() <= i < pending(v.ce, id).len() && #[trigger] pending(
                    v.ce,
                    id,
                )[i] == r
        }),
    decreases fuel,
{
    let m = w.stack.last();
    if w.stack.len() == 0 {
        assert(!is_within(d, w.stack, n));
    }
    lemma_step_load(w, d, document, phase);
    lemma_step_within(w, d, document, phase, n);
    let e = walk_step(w, d, document, phase);
    let less = (fuel - 1) as nat;
    if stops(d, document, m) {
        lemma_visit_carries(w.registry, d, m, phase);
        lemma_told_stays(start, w.registry, d, n, phase);
        let f = formed_step(w, d, document, phase, replies.first());
        let rest = replies.drop_first();
        assert(met(w, d, document, phase, replies, fuel).len() == 1 + met(
            f,
            d,
            document,
            phase,
            rest,
            less,
        ).len());
        assert(replies[0] == replies.first());
        assert(steps_ok(replies.first(), d.len()));
        lemma_form_steps_carry(e.registry, d, replies.first());
        lemma_carries_join(w.registry, e.registry, f.registry);
        lemma_carries_join(start, w.registry, f.registry);
        assert(replies_ok(rest, d)) by {
            assert forall|i: int| 0 <= i < rest.len() implies steps_ok(#[trigger] rest[i], d.len()) by {
                assert(rest[i] == replies[i + 1]);
            }
        }
        if m == n {
            lemma_walk_carries(f, d, document, phase, rest, less);
            let v = walked(f, d, document, phase, rest, less);
            lemma_carries_join(e.registry, f.registry, v);
            let id = e.registry.ids.ids[n];
            assert(e.registry.ids.ids.contains_key(n));
            assert(v.ids.ids[n] == id);
            let k = pending(e.registry.ce, id).len() - 1;
            assert(pending(start.ce, id).is_prefix_of(pending(w.registry.ce, id)));
            assert(pending(e.registry.ce, id).is_prefix_of(pending(v.ce, id)));
            assert(pending(v.ce, id)[k] == pending(e.registry.ce, id)[k]);
            assert(pending(v.ce, id)[k] == r);
        } else {
            lemma_walk_tells(start, f, d, document, phase, rest, less, n, r);
        }
    } else {
        assert(m != n);
        lemma_walk_tells(start, e, d, document, phase, replies, less, n, r);
    }
}

/// Every element in the document that a walk over inserted subtrees covers, and
/// whose name is defined, is told: it is upgraded if it has a valid name and no
/// state yet, and otherwise its callback for insertion is queued. A walk over
/// subtrees that leave queues the callback for removal of each, if it has one.
pub proof fn law_walks_tell_every_defined_element(
    w: WalkView,
    d: DomView,
    document: NodePtr,
    phase: LifecyclePhase,
    replies: Seq<Seq<FormStep>>,
    n: NodePtr,
    k: int,
)
    requires
        all_finite(d, w.stack),
        d.len() <= usize::MAX,
        next_after(w.registry.ids, d.len()) <= u32::MAX,
        states_given(w.registry),
        replies_ok(replies, d),
        met(w, d, document, phase, replies, load(d, w.stack)).len() <= replies.len(),
        d[n as int] is Element,
        in_document(d, document, n),
        is_within(d, w.stack, n),
        latest(w.registry.ce.definitions, d[n as int]->Element_0.tag_name) == Some(k),
        phase is Disconnected ==> w.registry.ce.definitions[k].disconnected is Some,
    ensures
        ({
            let v = walked(w, d, document, phase, replies, load(d, w.stack));
            let id = v.ids.ids[n];
            let def = w.registry.ce.definitions[k];
            let fresh = !w.registry.ids.ids.contains_key(n) || {
                let before = w.registry.ids.ids[n];
                !w.registry.ce.states.contains_key(before)
                    || w.registry.ce.states[before] is Undefined
            };
            &&& v.ids.ids.contains_key(n)
            &&& exists|i: int|
                {
                    &&& pending(w.registry.ce, id).len() <= i < pending(v.ce, id).len()
                    &&& #[trigger] pending(v.ce, id)[i] == (if phase is Disconnected {
                        ReactionView::Callback {
                            callback: def.disconnected->0,
                            args: Seq::empty(),
                            native_connect: false,
                        }
                    } else if is_custom_name(d[n as int]->Element_0.tag_name) && fresh {
                        ReactionView::Upgrade { definition: k as usize, is_connected: true }
                    } else if def.connected is Some {
                        ReactionView::Callback {
                            callback: def.connected->0,
                            args: Seq::empty(),
                            native_connect: true,
                        }
                    } else {
                        ReactionView::DynamicConnected
                    })
                }
        }),
{
    let r = told_of(w.registry, d, n, phase)->0;
    assert(told_of(w.registry, d, n, phase) == Some(r));
    lemma_same_pending(w.registry, w.registry);
    lemma_walk_tells(
        w.registry,
        w,
        d,
        document,
        phase,
        replies,
        load(d, w.stack),
        n,
        r,
    );
}

} // verus!
