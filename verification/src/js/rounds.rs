//! In which order the walks over subtrees go.

use crate::dom::node::{finite_from, followed, opt_seq, DomView, NodePtr, NodeView, Reach};
use crate::dom::routes::{gathered, gathered_all, lemma_gathered_all_stable, lemma_gathered_join,
    lemma_gathered_lists_all, lemma_gathered_one, lemma_routes_end, lists_all, routes_end, Below};
use crate::js::forms::FormStep;
use crate::js::lifecycle::{all_finite, formed_step, in_document, lemma_step_load, load, met, stops,
    upgrades, walk_step, LifecyclePhase, WalkView};
use vstd::prelude::*;

verus! {

/// What an element holds: its children, then its shadow root, then its template
/// contents.
pub open spec fn held_lists(d: DomView) -> Below {
    |m: NodePtr|
        match d[m as int] {
            NodeView::Element(el) => el.children + opt_seq(el.shadow_root) + opt_seq(
                el.template_contents,
            ),
            _ => Seq::empty(),
        }
}

/// A connected element on its own.
pub open spec fn connected_alone(d: DomView, document: NodePtr) -> spec_fn(NodePtr) -> Seq<NodePtr> {
    |m: NodePtr|
        if d[m as int] is Element && in_document(d, document, m) {
            seq![m]
        } else {
            Seq::empty()
        }
}

/// What a step leaves to be visited comes before what was left already, and the
/// children of an element come in their order. Its shadow root and its template
/// contents come behind them, and before them where the element is upgraded.
pub proof fn law_children_are_visited_in_order(
    w: WalkView,
    d: DomView,
    document: NodePtr,
    phase: LifecyclePhase,
)
    requires
        w.stack.len() > 0,
    ensures
        ({
            let m = w.stack.last();
            let next = walk_step(w, d, document, phase).stack.reverse();
            let left = w.stack.drop_last().reverse();
            match d[m as int] {
                NodeView::Element(el) => {
                    let (shadow, template) = (
                        opt_seq(el.shadow_root),
                        opt_seq(el.template_contents),
                    );
                    if in_document(d, document, m) && upgrades(w.registry, d, m, phase) {
                        next == template + shadow + el.children + left
                    } else {
                        next == el.children + shadow + template + left
                    }
                },
                _ => next == left,
            }
        }),
{
    let m = w.stack.last();
    let next = walk_step(w, d, document, phase).stack.reverse();
    let left = w.stack.drop_last().reverse();
    if let NodeView::Element(el) = d[m as int] {
        let (shadow, template) = (opt_seq(el.shadow_root), opt_seq(el.template_contents));
        if in_document(d, document, m) && upgrades(w.registry, d, m, phase) {
            assert(next =~= template + shadow + el.children + left);
        } else {
            assert(next =~= el.children + shadow + template + left);
        }
    }
}

proof fn lemma_met_in_order(
    w: WalkView,
    d: DomView,
    document: NodePtr,
    replies: Seq<Seq<FormStep>>,
    fuel: nat,
)
    requires
        all_finite(d, w.stack),
        load(d, w.stack) <= fuel,
    ensures
        met(w, d, document, LifecyclePhase::Disconnected, replies, fuel) == gathered_all(
            connected_alone(d, document),
            held_lists(d),
            w.stack.reverse(),
            d.len() + 1,
        ),
    decreases fuel,
{
    let (own, below) = (connected_alone(d, document), held_lists(d));
    let phase = LifecyclePhase::Disconnected;
    if w.stack.len() == 0 {
        assert(gathered_all(own, below, w.stack.reverse(), d.len() + 1) =~= Seq::<NodePtr>::empty());
    } else {
        lemma_step_load(w, d, document, phase);
        let m = w.stack.last();
        let left = w.stack.drop_last().reverse();
        let next = walk_step(w, d, document, phase).stack;
        law_children_are_visited_in_order(w, d, document, phase);
        assert(w.stack.reverse() =~= seq![m] + left);
        assert(next.reverse() =~= below(m) + left);
        lemma_gathered_join(own, below, seq![m], left, d.len() + 1);
        lemma_gathered_one(own, below, m, d.len() + 1);
        lemma_gathered_join(own, below, below(m), left, d.len() + 1);
        assert(w.stack[w.stack.len() - 1] == m);
        lemma_held_routes(d, m);
        lemma_gathered_all_stable(own, below, below(m), d.len(), d.len() + 1);
        let less = (fuel - 1) as nat;
        let rest = gathered_all(own, below, next.reverse(), d.len() + 1);
        if stops(d, document, m) {
            let e = formed_step(w, d, document, phase, replies.first());
            assert(e.stack == next);
            lemma_met_in_order(e, d, document, replies.drop_first(), less);
            assert(own(m) =~= seq![m]);
        } else {
            lemma_met_in_order(walk_step(w, d, document, phase), d, document, replies, less);
            assert(own(m) =~= Seq::<NodePtr>::empty());
        }
        assert(met(w, d, document, phase, replies, fuel) =~= own(m) + rest);
        assert(gathered_all(own, below, w.stack.reverse(), d.len() + 1) =~= own(m) + rest);
    }
}

proof fn lemma_held_routes(d: DomView, m: NodePtr)
    requires
        finite_from(d, m, Reach::All),
    ensures
        routes_end(held_lists(d), m, d.len()),
        d.len() > 0,
        forall|i: int|
            0 <= i < held_lists(d)(m).len() ==> routes_end(
                held_lists(d),
                #[trigger] held_lists(d)(m)[i],
                (d.len() - 1) as nat,
            ),
{
    let below = held_lists(d);
    assert forall|k: NodePtr, i: int| k < d.len() && 0 <= i < below(k).len() implies followed(
        d[k as int],
        Reach::All,
    ).contains(#[trigger] below(k)[i]) by {
        if let NodeView::Element(el) = d[k as int] {
            let all = followed(d[k as int], Reach::All);
            let (kids, shadow, template) = (
                el.children,
                opt_seq(el.shadow_root),
                opt_seq(el.template_contents),
            );
            assert(all =~= kids + (template + shadow));
            if i < kids.len() {
                assert(all[i] == below(k)[i]);
            } else if i < kids.len() + shadow.len() {
                assert(all[i + template.len()] == below(k)[i]);
            } else {
                assert(all[i - shadow.len()] == below(k)[i]);
            }
        }
    }
    lemma_routes_end(d, below, m, Reach::All, d.len());
}

/// A walk over a subtree that leaves meets every connected element of it, at every
/// depth and through shadow roots and template contents, once and in document
/// order.
pub proof fn law_leaving_elements_are_met_in_document_order(
    w: WalkView,
    d: DomView,
    document: NodePtr,
    root: NodePtr,
    replies: Seq<Seq<FormStep>>,
    fuel: nat,
)
    requires
        w.stack == seq![root],
        all_finite(d, w.stack),
        load(d, w.stack) <= fuel,
    ensures
        lists_all(
            connected_alone(d, document),
            held_lists(d),
            root,
            met(w, d, document, LifecyclePhase::Disconnected, replies, fuel),
        ),
{
    let (own, below) = (connected_alone(d, document), held_lists(d));
    lemma_met_in_order(w, d, document, replies, fuel);
    assert(w.stack[0] == root);
    assert(w.stack.reverse() =~= seq![root]);
    lemma_held_routes(d, root);
    lemma_gathered_one(own, below, root, d.len() + 1);
    lemma_gathered_lists_all(own, below, root, d.len());
    assert(gathered_all(own, below, seq![root], d.len() + 1) == gathered(
        own,
        below,
        root,
        d.len(),
    ));
}

} // verus!
