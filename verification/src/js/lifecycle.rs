//! Telling custom elements that they were inserted, removed or changed.
//!
//! A walk goes over the subtrees that were inserted or are about to be removed
//! and enqueues what each element is told. After each connected element the
//! form association of that element is brought up to date before the walk goes
//! on, so what the element is told of forms comes behind all else.

use crate::dom::node::{ends_within, finite_from, followed, lemma_more_fuel, opt_seq, Dom, DomView,
    ElementView, Node, NodePtr, NodeView, Reach};
use crate::js::custom_elements::{enqueued, latest, observes, text_view, DefId, Handle,
    ReactionView};
use crate::js::forms::{answered, answered_all, form_steps, is_form_source, lemma_form_steps_keep,
    update_forms, FormCause, FormCauseView, FormStep};
use crate::js::mutation::{is_connected_to, reaches, MAX_CONNECTIVITY_STEPS};
use crate::js::reactions::{connect_reaction, try_upgrade_element, upgrade_starts, upgrade_tried};
use crate::js::registry::{can_register, id_of, law_registration_wastes_no_ids, next_after,
    registered, NodeRegistry, RegistryView};
use vstd::prelude::*;

verus! {

/// Which callback a walk enqueues.
#[derive(Debug, Clone, Copy, PartialEq, Eq, Structural)]
pub enum LifecyclePhase {
    Connected,
    Disconnected,
}

/// A walk: the subtrees still to be visited, the next one last.
#[derive(Debug)]
pub struct LifecycleWalk {
    pub stack: Vec<NodePtr>,
    pub phase: LifecyclePhase,
}

/// A state of a walk.
#[verifier::ext_equal]
pub struct WalkView {
    pub registry: RegistryView,
    pub stack: Seq<NodePtr>,
}

/// The registry after the callback of an element's definition was enqueued.
pub open spec fn told(v: RegistryView, el: ElementView, n: NodePtr, phase: LifecyclePhase) -> RegistryView {
    match latest(v.ce.definitions, el.tag_name) {
        Some(i) => {
            let def = v.ce.definitions[i];
            let e = RegistryView { ids: registered(v.ids, n), ..v };
            let id = id_of(v.ids, n);
            match phase {
                LifecyclePhase::Connected => RegistryView {
                    ce: enqueued(v.ce, id, connect_reaction(def)),
                    ..e
                },
                LifecyclePhase::Disconnected => match def.disconnected {
                    Some(callback) => RegistryView {
                        ce: enqueued(
                            v.ce,
                            id,
                            ReactionView::Callback {
                                callback,
                                args: Seq::empty(),
                                native_connect: false,
                            },
                        ),
                        ..e
                    },
                    None => v,
                },
            }
        },
        None => v,
    }
}

/// Whether `n` is in the document.
pub open spec fn in_document(d: DomView, document: NodePtr, n: NodePtr) -> bool {
    reaches(d, document, n, MAX_CONNECTIVITY_STEPS as nat)
}

/// Whether visiting `n` starts its upgrade.
pub open spec fn upgrades(v: RegistryView, d: DomView, n: NodePtr, phase: LifecyclePhase) -> bool {
    phase is Connected && upgrade_starts(v, d, n)
}

/// The registry after a connected element was visited: an element that can be
/// upgraded is, and any other is told of its insertion or removal.
pub open spec fn visited(v: RegistryView, d: DomView, n: NodePtr, phase: LifecyclePhase) -> RegistryView {
    let tried = if phase is Connected {
        upgrade_tried(v, d, n, true)
    } else {
        v
    };
    if upgrades(v, d, n, phase) {
        tried
    } else {
        told(tried, d[n as int]->Element_0, n, phase)
    }
}

/// What a visit puts on the stack. Children come before the shadow tree and
/// that before template contents; after an upgrade it is the other way round,
/// and the children among themselves keep their order.
pub open spec fn pushed(el: ElementView, upgraded: bool) -> Seq<NodePtr> {
    if upgraded {
        el.children.reverse() + opt_seq(el.shadow_root) + opt_seq(el.template_contents)
    } else {
        opt_seq(el.template_contents) + opt_seq(el.shadow_root) + el.children.reverse()
    }
}

/// One visit.
pub open spec fn walk_step(w: WalkView, d: DomView, document: NodePtr, phase: LifecyclePhase) -> WalkView {
    let n = w.stack.last();
    let rest = w.stack.drop_last();
    match d[n as int] {
        NodeView::Element(el) => if in_document(d, document, n) {
            WalkView {
                registry: visited(w.registry, d, n, phase),
                stack: rest + pushed(el, upgrades(w.registry, d, n, phase)),
            }
        } else {
            WalkView { registry: w.registry, stack: rest + pushed(el, false) }
        },
        _ => WalkView { registry: w.registry, stack: rest },
    }
}

/// Whether a visit ends at a connected element.
pub open spec fn stops(d: DomView, document: NodePtr, n: NodePtr) -> bool {
    d[n as int] is Element && in_document(d, document, n)
}

/// The walk up to the next connected element, with that element.
pub open spec fn walk_on(w: WalkView, d: DomView, document: NodePtr, phase: LifecyclePhase, fuel: nat) -> (
    WalkView,
    Option<NodePtr>,
)
    decreases fuel,
{
    if w.stack.len() == 0 || fuel == 0 {
        (w, None)
    } else {
        let n = w.stack.last();
        let e = walk_step(w, d, document, phase);
        if stops(d, document, n) {
            (e, Some(n))
        } else {
            walk_on(e, d, document, phase, (fuel - 1) as nat)
        }
    }
}

/// Why the form source is asked about the elements of a walk.
pub open spec fn cause_of(phase: LifecyclePhase) -> FormCauseView {
    match phase {
        LifecyclePhase::Connected => FormCauseView::Entered,
        LifecyclePhase::Disconnected => FormCauseView::Left,
    }
}

/// One visit, and what the form source answers about a connected element.
pub open spec fn formed_step(
    w: WalkView,
    d: DomView,
    document: NodePtr,
    phase: LifecyclePhase,
    steps: Seq<FormStep>,
) -> WalkView {
    let e = walk_step(w, d, document, phase);
    WalkView { registry: form_steps(e.registry, d, steps), stack: e.stack }
}

/// The whole walk. The form source gives `replies` about the connected elements,
/// one by one.
pub open spec fn walked(
    w: WalkView,
    d: DomView,
    document: NodePtr,
    phase: LifecyclePhase,
    replies: Seq<Seq<FormStep>>,
    fuel: nat,
) -> RegistryView
    decreases fuel,
{
    if w.stack.len() == 0 || fuel == 0 {
        w.registry
    } else if stops(d, document, w.stack.last()) {
        walked(
            formed_step(w, d, document, phase, replies.first()),
            d,
            document,
            phase,
            replies.drop_first(),
            (fuel - 1) as nat,
        )
    } else {
        walked(walk_step(w, d, document, phase), d, document, phase, replies, (fuel - 1) as nat)
    }
}

/// The connected elements that a walk meets, in order.
pub open spec fn met(
    w: WalkView,
    d: DomView,
    document: NodePtr,
    phase: LifecyclePhase,
    replies: Seq<Seq<FormStep>>,
    fuel: nat,
) -> Seq<NodePtr>
    decreases fuel,
{
    if w.stack.len() == 0 || fuel == 0 {
        Seq::empty()
    } else if stops(d, document, w.stack.last()) {
        seq![w.stack.last()] + met(
            formed_step(w, d, document, phase, replies.first()),
            d,
            document,
            phase,
            replies.drop_first(),
            (fuel - 1) as nat,
        )
    } else {
        met(walk_step(w, d, document, phase), d, document, phase, replies, (fuel - 1) as nat)
    }
}

/// A walk touches ids and custom elements only.
pub proof fn lemma_walk_keeps(
    w: WalkView,
    d: DomView,
    document: NodePtr,
    phase: LifecyclePhase,
    replies: Seq<Seq<FormStep>>,
    fuel: nat,
)
    ensures
        ({
            let v = walked(w, d, document, phase, replies, fuel);
            v == (RegistryView { ids: v.ids, ce: v.ce, ..w.registry })
        }),
    decreases fuel,
{
    if w.stack.len() > 0 && fuel > 0 {
        let e = walk_step(w, d, document, phase);
        assert(e.registry == (RegistryView {
            ids: e.registry.ids,
            ce: e.registry.ce,
            ..w.registry
        }));
        if stops(d, document, w.stack.last()) {
            lemma_form_steps_keep(e.registry, d, replies.first());
            lemma_walk_keeps(
                formed_step(w, d, document, phase, replies.first()),
                d,
                document,
                phase,
                replies.drop_first(),
                (fuel - 1) as nat,
            );
        } else {
            lemma_walk_keeps(e, d, document, phase, replies, (fuel - 1) as nat);
        }
    }
}

/// How many nodes there are at and below `n`.
pub open spec fn weight(d: DomView, n: NodePtr, fuel: nat) -> nat
    decreases fuel, 1nat, 0nat,
{
    1 + weights(d, followed(d[n as int], Reach::All), fuel)
}

/// How many nodes there are at and below those of a list.
pub open spec fn weights(d: DomView, list: Seq<NodePtr>, fuel: nat) -> nat
    decreases fuel, 0nat, list.len(),
{
    if list.len() == 0 || fuel == 0 {
        0
    } else {
        weights(d, list.drop_last(), fuel) + weight(d, list.last(), (fuel - 1) as nat)
    }
}

/// How many nodes a walk over a stack visits.
pub open spec fn load(d: DomView, stack: Seq<NodePtr>) -> nat
    decreases stack.len(),
{
    if stack.len() == 0 {
        0
    } else {
        load(d, stack.drop_last()) + weight(d, stack.last(), d.len())
    }
}

/// Whether every subtree of a stack is finite.
pub open spec fn all_finite(d: DomView, stack: Seq<NodePtr>) -> bool {
    forall|i: int| 0 <= i < stack.len() ==> finite_from(d, #[trigger] stack[i], Reach::All)
}

proof fn lemma_weight_stable(d: DomView, n: NodePtr, f: nat, g: nat)
    requires
        ends_within(d, n, Reach::All, f),
        f <= g,
    ensures
        weight(d, n, f) == weight(d, n, g),
    decreases f, 1nat, 0nat,
{
    let kids = followed(d[n as int], Reach::All);
    assert forall|i: int| 0 <= i < kids.len() implies ends_within(
        d,
        #[trigger] kids[i],
        Reach::All,
        (f - 1) as nat,
    ) by {}
    lemma_weights_stable(d, kids, f, g);
}

proof fn lemma_weights_stable(d: DomView, list: Seq<NodePtr>, f: nat, g: nat)
    requires
        0 < f <= g,
        forall|i: int|
            0 <= i < list.len() ==> ends_within(d, #[trigger] list[i], Reach::All, (f - 1) as nat),
    ensures
        weights(d, list, f) == weights(d, list, g),
    decreases f, 0nat, list.len(),
{
    if list.len() > 0 {
        assert forall|i: int| 0 <= i < list.drop_last().len() implies ends_within(
            d,
            #[trigger] list.drop_last()[i],
            Reach::All,
            (f - 1) as nat,
        ) by {
            assert(list.drop_last()[i] == list[i]);
        }
        lemma_weights_stable(d, list.drop_last(), f, g);
        assert(list[list.len() - 1] == list.last());
        lemma_weight_stable(d, list.last(), (f - 1) as nat, (g - 1) as nat);
    }
}

/// The nodes below a node weigh as much on a stack as they do below it.
proof fn lemma_load_of_followed(d: DomView, list: Seq<NodePtr>, f: nat)
    requires
        0 < f <= d.len() + 1,
        forall|i: int|
            0 <= i < list.len() ==> ends_within(d, #[trigger] list[i], Reach::All, (f - 1) as nat),
    ensures
        load(d, list) == weights(d, list, f),
        f <= d.len() ==> all_finite(d, list),
    decreases list.len(),
{
    if list.len() > 0 {
        let front = list.drop_last();
        assert forall|i: int| 0 <= i < front.len() implies ends_within(
            d,
            #[trigger] front[i],
            Reach::All,
            (f - 1) as nat,
        ) by {
            assert(front[i] == list[i]);
        }
        lemma_load_of_followed(d, front, f);
        assert(list[list.len() - 1] == list.last());
        lemma_weight_stable(d, list.last(), (f - 1) as nat, d.len());
        assert forall|i: int| 0 <= i < list.len() implies finite_from(
            d,
            #[trigger] list[i],
            Reach::All,
        ) by {
            lemma_more_fuel(d, list[i], Reach::All, (f - 1) as nat, d.len());
        }
    }
}

proof fn lemma_load_join(d: DomView, a: Seq<NodePtr>, b: Seq<NodePtr>)
    ensures
        load(d, a + b) == load(d, a) + load(d, b),
    decreases b.len(),
{
    if b.len() == 0 {
        assert(a + b =~= a);
    } else {
        assert((a + b).drop_last() =~= a + b.drop_last());
        lemma_load_join(d, a, b.drop_last());
    }
}

proof fn lemma_load_reverse(d: DomView, a: Seq<NodePtr>)
    ensures
        load(d, a.reverse()) == load(d, a),
    decreases a.len(),
{
    if a.len() > 0 {
        lemma_load_reverse(d, a.drop_last());
        assert(a.reverse() =~= seq![a.last()] + a.drop_last().reverse());
        lemma_load_join(d, seq![a.last()], a.drop_last().reverse());
        let one = seq![a.last()];
        assert(one.drop_last() =~= Seq::<NodePtr>::empty());
        assert(load(d, one.drop_last()) == 0);
        assert(one.last() == a.last());
    }
}

/// A visit puts back what is below the node and so takes one node off the
/// load.
pub proof fn lemma_step_load(w: WalkView, d: DomView, document: NodePtr, phase: LifecyclePhase)
    requires
        w.stack.len() > 0,
        all_finite(d, w.stack),
    ensures
        all_finite(d, walk_step(w, d, document, phase).stack),
        load(d, walk_step(w, d, document, phase).stack) < load(d, w.stack),
        w.stack.last() < d.len(),
{
    let n = w.stack.last();
    let rest = w.stack.drop_last();
    assert(w.stack[w.stack.len() - 1] == n);
    assert(finite_from(d, n, Reach::All));
    assert forall|i: int| 0 <= i < rest.len() implies finite_from(
        d,
        #[trigger] rest[i],
        Reach::All,
    ) by {
        assert(rest[i] == w.stack[i]);
    }
    if let NodeView::Element(el) = d[n as int] {
        let kids = el.children;
        let shadow = opt_seq(el.shadow_root);
        let template = opt_seq(el.template_contents);
        let all = followed(d[n as int], Reach::All);
        assert(all == kids + (template + shadow));
        assert forall|i: int| 0 <= i < all.len() implies ends_within(
            d,
            #[trigger] all[i],
            Reach::All,
            (d.len() - 1) as nat,
        ) by {}
        lemma_load_of_followed(d, all, d.len());
        lemma_load_join(d, kids, template + shadow);
        lemma_load_join(d, template, shadow);
        lemma_load_reverse(d, kids);
        let upgraded = in_document(d, document, n) && upgrades(w.registry, d, n, phase);
        let more = pushed(el, upgraded);
        if upgraded {
            lemma_load_join(d, kids.reverse() + shadow, template);
            lemma_load_join(d, kids.reverse(), shadow);
        } else {
            lemma_load_join(d, template + shadow, kids.reverse());
        }
        lemma_load_join(d, rest, more);
        assert forall|i: int| 0 <= i < more.len() implies finite_from(
            d,
            #[trigger] more[i],
            Reach::All,
        ) by {
            lemma_pushed_followed(el, upgraded, i);
            let j = choose|j: int| 0 <= j < all.len() && all[j] == more[i];
            assert(finite_from(d, all[j], Reach::All));
        }
        let next = rest + more;
        assert forall|i: int| 0 <= i < next.len() implies finite_from(
            d,
            #[trigger] next[i],
            Reach::All,
        ) by {
            if i < rest.len() {
                assert(next[i] == rest[i]);
            } else {
                assert(next[i] == more[i - rest.len()]);
            }
        }
    }
}

pub proof fn lemma_pushed_followed(el: ElementView, upgraded: bool, i: int)
    requires
        0 <= i < pushed(el, upgraded).len(),
    ensures
        followed(NodeView::Element(el), Reach::All).contains(pushed(el, upgraded)[i]),
{
    let kids = el.children;
    let back = kids.reverse();
    let shadow = opt_seq(el.shadow_root);
    let template = opt_seq(el.template_contents);
    let all = kids + (template + shadow);
    assert(followed(NodeView::Element(el), Reach::All) == all);
    let x = pushed(el, upgraded)[i];
    if back.contains(x) {
        let j = choose|j: int| 0 <= j < back.len() && back[j] == x;
        assert(kids[kids.len() - 1 - j] == x);
        assert(all[kids.len() - 1 - j] == x);
    } else if shadow.contains(x) {
        let j = choose|j: int| 0 <= j < shadow.len() && shadow[j] == x;
        assert(all[kids.len() + template.len() + j] == x);
    } else {
        if upgraded {
            if i < back.len() {
                assert(back[i] == x);
            } else if i < back.len() + shadow.len() {
                assert(shadow[i - back.len()] == x);
            } else {
                assert(template[i - back.len() - shadow.len()] == x);
                assert(all[kids.len() + (i - back.len() - shadow.len())] == x);
            }
        } else {
            if i < template.len() {
                assert(template[i] == x);
                assert(all[kids.len() + i] == x);
            } else if i < template.len() + shadow.len() {
                assert(shadow[i - template.len()] == x);
            } else {
                assert(back[i - template.len() - shadow.len()] == x);
            }
        }
    }
}

/// A visit gives out ids to nodes of the document only.
proof fn lemma_step_ids(w: WalkView, d: DomView, document: NodePtr, phase: LifecyclePhase)
    requires
        w.stack.len() > 0,
        w.stack.last() < d.len(),
        d.len() <= usize::MAX,
        next_after(w.registry.ids, d.len()) <= u32::MAX,
    ensures
        can_register(w.registry.ids, w.stack.last()),
        next_after(walk_step(w, d, document, phase).registry.ids, d.len()) == next_after(
            w.registry.ids,
            d.len(),
        ),
{
    law_registration_wastes_no_ids(w.registry.ids, w.stack.last(), d.len());
}

impl LifecycleWalk {
    /// A walk over subtrees. It is empty where native reactions are off or
    /// there is no document.
    pub fn new(registry: &NodeRegistry, roots: &Vec<NodePtr>, phase: LifecyclePhase) -> (res: Self)
        ensures
            res.phase == phase,
            res.stack@ == walk_roots(registry@, roots@),
    {
        let mut stack: Vec<NodePtr> = Vec::new();
        if registry.native_ce_reactions() && registry.document().is_some() {
            push_reversed(&mut stack, roots);
        }
        assert(stack@ =~= walk_roots(registry@, roots@));
        LifecycleWalk { stack, phase }
    }

    fn visit(&mut self, registry: &mut NodeRegistry, dom: &Dom, document: NodePtr) -> (res: Option<
        NodePtr,
    >)
        requires
            dom.wf(),
            old(self).stack@.len() > 0,
            old(self).stack@.last() < dom@.len(),
            can_register(old(registry)@.ids, old(self).stack@.last()),
        ensures
            final(self).phase == old(self).phase,
            (WalkView { registry: final(registry)@, stack: final(self).stack@ }) == walk_step(
                WalkView { registry: old(registry)@, stack: old(self).stack@ },
                dom@,
                document,
                old(self).phase,
            ),
            res == (if stops(dom@, document, old(self).stack@.last()) {
                Some(old(self).stack@.last())
            } else {
                None
            }),
    {
        let ghost start = registry@;
        let ghost before = self.stack@;
        let n: NodePtr = match self.stack.pop() {
            Some(n) => n,
            None => {
                return None;
            },
        };
        let el = match dom.node(n) {
            Node::Element(el) => el,
            _ => {
                return None;
            },
        };
        let connected = is_connected_to(dom, document, n);
        let mut upgraded = false;
        if connected {
            if let LifecyclePhase::Connected = self.phase {
                upgraded = try_upgrade_element(registry, dom, n, true);
            }
            if !upgraded {
                tell(registry, el.tag_name.as_str(), n, self.phase, Ghost(el@));
            }
        }
        if upgraded {
            push_reversed(&mut self.stack, &el.children);
            push_some(&mut self.stack, el.shadow_root);
            push_some(&mut self.stack, el.template_contents);
        } else {
            push_some(&mut self.stack, el.template_contents);
            push_some(&mut self.stack, el.shadow_root);
            push_reversed(&mut self.stack, &el.children);
        }
        assert(self.stack@ =~= before.drop_last() + pushed(el@, upgraded));
        if connected {
            Some(n)
        } else {
            None
        }
    }

    /// Goes on to the next connected element, whose form association is to be
    /// brought up to date; nothing at the end of the walk.
    pub fn next(&mut self, registry: &mut NodeRegistry, dom: &Dom, document: NodePtr) -> (res: Option<
        NodePtr,
    >)
        requires
            dom.wf(),
            all_finite(dom@, old(self).stack@),
            next_after(old(registry)@.ids, dom@.len()) <= u32::MAX,
        ensures
            final(self).phase == old(self).phase,
            all_finite(dom@, final(self).stack@),
            (WalkView { registry: final(registry)@, stack: final(self).stack@ }, res) == walk_on(
                WalkView { registry: old(registry)@, stack: old(self).stack@ },
                dom@,
                document,
                old(self).phase,
                load(dom@, old(self).stack@),
            ),
            next_after(final(registry)@.ids, dom@.len()) == next_after(
                old(registry)@.ids,
                dom@.len(),
            ),
            res is Some ==> load(dom@, final(self).stack@) < load(dom@, old(self).stack@),
            res is None ==> final(self).stack@.len() == 0,
    {
        let ghost mut fuel: nat = load(dom@, self.stack@);
        let ghost total: nat = load(dom@, self.stack@);
        let ghost start = WalkView { registry: registry@, stack: self.stack@ };
        let ghost phase = self.phase;
        loop
            invariant
                dom.wf(),
                phase == self.phase,
                phase == old(self).phase,
                start == (WalkView { registry: old(registry)@, stack: old(self).stack@ }),
                total == load(dom@, old(self).stack@),
                all_finite(dom@, self.stack@),
                load(dom@, self.stack@) <= fuel,
                fuel <= total,
                next_after(registry@.ids, dom@.len()) == next_after(
                    start.registry.ids,
                    dom@.len(),
                ),
                next_after(start.registry.ids, dom@.len()) <= u32::MAX,
                walk_on(
                    WalkView { registry: registry@, stack: self.stack@ },
                    dom@,
                    document,
                    phase,
                    fuel,
                ) == walk_on(start, dom@, document, phase, total),
            decreases fuel,
        {
            if self.stack.len() == 0 {
                return None;
            }
            let ghost w = WalkView { registry: registry@, stack: self.stack@ };
            proof {
                dom.lemma_size();
                lemma_step_load(w, dom@, document, phase);
                lemma_step_ids(w, dom@, document, phase);
            }
            let found = self.visit(registry, dom, document);
            proof {
                fuel = (fuel - 1) as nat;
            }
            if let Some(n) = found {
                return Some(n);
            }
        }
    }

    /// Goes to the end of the walk. After each connected element the form source
    /// `forms` is asked about it. The connected elements are returned in order.
    pub fn run<F: Fn(&Dom, NodePtr, &FormCause) -> Vec<FormStep>>(
        &mut self,
        registry: &mut NodeRegistry,
        dom: &Dom,
        document: NodePtr,
        forms: &F,
    ) -> (res: Vec<NodePtr>)
        requires
            dom.wf(),
            all_finite(dom@, old(self).stack@),
            is_form_source(*forms),
            next_after(old(registry)@.ids, dom@.len()) <= u32::MAX,
        ensures
            final(self).phase == old(self).phase,
            final(self).stack@.len() == 0,
            next_after(final(registry)@.ids, dom@.len()) == next_after(
                old(registry)@.ids,
                dom@.len(),
            ),
            exists|replies: Seq<Seq<FormStep>>|
                {
                    let w = WalkView { registry: old(registry)@, stack: old(self).stack@ };
                    let fuel = load(dom@, old(self).stack@);
                    &&& #[trigger] answered_all(
                        *forms,
                        dom@,
                        res@,
                        cause_of(old(self).phase),
                        replies,
                    )
                    &&& res@ == met(w, dom@, document, old(self).phase, replies, fuel)
                    &&& final(registry)@ == walked(
                        w,
                        dom@,
                        document,
                        old(self).phase,
                        replies,
                        fuel,
                    )
                },
    {
        let ghost mut fuel: nat = load(dom@, self.stack@);
        let ghost total: nat = load(dom@, self.stack@);
        let ghost start = WalkView { registry: registry@, stack: self.stack@ };
        let ghost phase = self.phase;
        let ghost mut given: Seq<Seq<FormStep>> = Seq::empty();
        let mut found: Vec<NodePtr> = Vec::new();
        proof {
            assert forall|rest: Seq<Seq<FormStep>>|
                goes_on(start, start, dom@, document, phase, given, found@, rest, total, total) by {
                assert(given + rest =~= rest);
                let all = met(start, dom@, document, phase, rest, total);
                assert(found@ + all =~= all);
            }
        }
        loop
            invariant
                dom.wf(),
                is_form_source(*forms),
                phase == self.phase,
                phase == old(self).phase,
                start == (WalkView { registry: old(registry)@, stack: old(self).stack@ }),
                total == load(dom@, old(self).stack@),
                all_finite(dom@, self.stack@),
                load(dom@, self.stack@) <= fuel,
                fuel <= total,
                next_after(registry@.ids, dom@.len()) == next_after(
                    start.registry.ids,
                    dom@.len(),
                ),
                next_after(start.registry.ids, dom@.len()) <= u32::MAX,
                answered_all(*forms, dom@, found@, cause_of(phase), given),
                forall|rest: Seq<Seq<FormStep>>| #[trigger]
                    goes_on(
                        start,
                        WalkView { registry: registry@, stack: self.stack@ },
                        dom@,
                        document,
                        phase,
                        given,
                        found@,
                        rest,
                        total,
                        fuel,
                    ),
            decreases fuel,
        {
            let ghost w = WalkView { registry: registry@, stack: self.stack@ };
            if self.stack.len() == 0 {
                proof {
                    let none: Seq<Seq<FormStep>> = Seq::empty();
                    assert(goes_on(
                        start,
                        w,
                        dom@,
                        document,
                        phase,
                        given,
                        found@,
                        none,
                        total,
                        fuel,
                    ));
                    assert(given + none =~= given);
                    assert(found@ + Seq::<NodePtr>::empty() =~= found@);
                }
                return found;
            }
            let ghost before = found@;
            let ghost was = given;
            proof {
                dom.lemma_size();
                lemma_step_load(w, dom@, document, phase);
                lemma_step_ids(w, dom@, document, phase);
            }
            let next = self.visit(registry, dom, document);
            if let Some(n) = next {
                let cause = match self.phase {
                    LifecyclePhase::Connected => FormCause::Entered,
                    LifecyclePhase::Disconnected => FormCause::Left,
                };
                let steps = update_forms(registry, dom, n, cause, forms);
                found.push(n);
                proof {
                    given = given.push(steps@);
                    assert forall|i: int| 0 <= i < found@.len() implies answered(
                        *forms,
                        dom@,
                        #[trigger] found@[i],
                        cause_of(phase),
                        given[i],
                    ) by {
                        if i < before.len() {
                            assert(found@[i] == before[i]);
                            assert(given[i] == was[i]);
                        }
                    }
                    assert(w.stack.last() == n);
                    let e = formed_step(w, dom@, document, phase, steps@);
                    assert(e == (WalkView { registry: registry@, stack: self.stack@ }));
                    assert forall|rest: Seq<Seq<FormStep>>| #[trigger]
                        goes_on(
                            start,
                            e,
                            dom@,
                            document,
                            phase,
                            given,
                            found@,
                            rest,
                            total,
                            (fuel - 1) as nat,
                        ) by {
                        let more = seq![steps@] + rest;
                        assert(goes_on(
                            start,
                            w,
                            dom@,
                            document,
                            phase,
                            was,
                            before,
                            more,
                            total,
                            fuel,
                        ));
                        assert(was + more =~= given + rest);
                        assert(more.first() == steps@);
                        assert(more.drop_first() =~= rest);
                        let last = met(e, dom@, document, phase, rest, (fuel - 1) as nat);
                        assert(before + (seq![n] + last) =~= found@ + last);
                    }
                }
            } else {
                proof {
                    let e = walk_step(w, dom@, document, phase);
                    assert(e == (WalkView { registry: registry@, stack: self.stack@ }));
                    assert forall|rest: Seq<Seq<FormStep>>| #[trigger]
                        goes_on(
                            start,
                            e,
                            dom@,
                            document,
                            phase,
                            given,
                            found@,
                            rest,
                            total,
                            (fuel - 1) as nat,
                        ) by {
                        assert(goes_on(
                            start,
                            w,
                            dom@,
                            document,
                            phase,
                            was,
                            before,
                            rest,
                            total,
                            fuel,
                        ));
                    }
                }
            }
            proof {
                fuel = (fuel - 1) as nat;
            }
        }
    }
}

/// Whether the walk from `start` is as far as `now`: it has met `found` and got
/// the replies `given`, and with `rest` still to come it ends as the walk from
/// `now` does.
spec fn goes_on(
    start: WalkView,
    now: WalkView,
    d: DomView,
    document: NodePtr,
    phase: LifecyclePhase,
    given: Seq<Seq<FormStep>>,
    found: Seq<NodePtr>,
    rest: Seq<Seq<FormStep>>,
    total: nat,
    fuel: nat,
) -> bool {
    &&& walked(start, d, document, phase, given + rest, total) == walked(
        now,
        d,
        document,
        phase,
        rest,
        fuel,
    )
    &&& met(start, d, document, phase, given + rest, total) == found + met(
        now,
        d,
        document,
        phase,
        rest,
        fuel,
    )
}

/// The stack that a walk over subtrees starts with.
pub open spec fn walk_roots(v: RegistryView, roots: Seq<NodePtr>) -> Seq<NodePtr> {
    if v.native_ce_reactions && v.document is Some {
        roots.reverse()
    } else {
        Seq::empty()
    }
}

fn push_reversed(stack: &mut Vec<NodePtr>, list: &Vec<NodePtr>)
    ensures
        final(stack)@ == old(stack)@ + list@.reverse(),
{
    let ghost start = stack@;
    let mut i: usize = list.len();
    while i > 0
        invariant
            i <= list.len(),
            stack@ == start + list@.skip(i as int).reverse(),
        decreases i,
    {
        stack.push(list[i - 1]);
        assert(stack@ =~= start + list@.skip(i - 1).reverse());
        i = i - 1;
    }
    assert(list@.skip(0) =~= list@);
}

fn push_some(stack: &mut Vec<NodePtr>, x: Option<NodePtr>)
    ensures
        final(stack)@ == old(stack)@ + opt_seq(x),
{
    let ghost start = stack@;
    if let Some(n) = x {
        stack.push(n);
    }
    assert(stack@ =~= start + opt_seq(x));
}

fn tell(registry: &mut NodeRegistry, tag: &str, n: NodePtr, phase: LifecyclePhase, Ghost(el): Ghost<
    ElementView,
>)
    requires
        el.tag_name == tag@,
        can_register(old(registry)@.ids, n),
    ensures
        final(registry)@ == told(old(registry)@, el, n, phase),
{
    let def: DefId = match registry.ce_registry().lookup(tag) {
        Some(id) => id,
        None => {
            return ;
        },
    };
    match phase {
        LifecyclePhase::Connected => {
            let callback = registry.ce_registry().definition(def).connected;
            let id: u32 = registry.register(n);
            match callback {
                Some(callback) => {
                    let args: Vec<Handle> = Vec::new();
                    assert(args@ =~= Seq::<Handle>::empty());
                    registry.custom_elements().enqueue_callback(id, callback, args, true);
                },
                None => {
                    registry.custom_elements().enqueue_dynamic_connected(id);
                },
            }
        },
        LifecyclePhase::Disconnected => {
            let callback = registry.ce_registry().definition(def).disconnected;
            if let Some(callback) = callback {
                let id: u32 = registry.register(n);
                let args: Vec<Handle> = Vec::new();
                assert(args@ =~= Seq::<Handle>::empty());
                registry.custom_elements().enqueue_callback(id, callback, args, false);
            }
        },
    }
}

/// The registry after an element's attribute has changed: an element whose
/// definition observes the attribute is told, connected or not.
pub open spec fn attribute_told(
    v: RegistryView,
    d: DomView,
    n: NodePtr,
    name: Seq<char>,
    old_value: Option<Seq<char>>,
    new_value: Option<Seq<char>>,
) -> RegistryView {
    if v.native_ce_reactions && d[n as int] is Element {
        let found = latest(v.ce.definitions, d[n as int]->Element_0.tag_name);
        if found is Some && observes(v.ce.definitions[found->0], name)
            && v.ce.definitions[found->0].attribute_changed is Some {
            RegistryView {
                ids: registered(v.ids, n),
                ce: enqueued(
                    v.ce,
                    id_of(v.ids, n),
                    ReactionView::AttributeChanged {
                        callback: v.ce.definitions[found->0].attribute_changed->0,
                        name,
                        old_value,
                        new_value,
                    },
                ),
                ..v
            }
        } else {
            v
        }
    } else {
        v
    }
}

/// Enqueues the callback for a changed attribute, if the element's definition
/// observes it.
pub fn enqueue_attribute_changed_reaction(
    registry: &mut NodeRegistry,
    dom: &Dom,
    node: NodePtr,
    name: &str,
    old_value: Option<String>,
    new_value: Option<String>,
)
    requires
        node < dom@.len(),
        can_register(old(registry)@.ids, node),
    ensures
        final(registry)@ == attribute_told(
            old(registry)@,
            dom@,
            node,
            name@,
            text_view(old_value),
            text_view(new_value),
        ),
{
    if !registry.native_ce_reactions() {
        return ;
    }
    let tag = match dom.node(node) {
        Node::Element(el) => el.tag_name.as_str(),
        _ => {
            return ;
        },
    };
    let def: DefId = match registry.ce_registry().lookup(tag) {
        Some(id) => id,
        None => {
            return ;
        },
    };
    if !registry.ce_registry().definition(def).is_observed(name) {
        return ;
    }
    let callback = registry.ce_registry().definition(def).attribute_changed;
    if let Some(callback) = callback {
        let id: u32 = registry.register(node);
        registry.custom_elements().enqueue_attribute_changed(
            id,
            callback,
            name.to_owned(),
            old_value,
            new_value,
        );
    }
}

} // verus!
