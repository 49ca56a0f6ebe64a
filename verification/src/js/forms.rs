//! Form association of custom elements.
//!
//! Which form owns an element, and whether the element is disabled, is found out
//! elsewhere: a form source is asked about an element that has entered or left
//! the document, or whose attribute has changed. What it answers is recorded
//! here, and an element whose form owner or disabled state is no longer the
//! recorded one is told.

use crate::dom::node::{Dom, DomView, Node, NodePtr, NodeView};
use crate::js::custom_elements::{enqueued, latest, pending, CeDefinition, CeView, DefId,
    FormReaction, Handle, ReactionView};
use crate::js::registry::{id_of, law_registration_wastes_no_ids, next_after, registered,
    NodeRegistry, RegistryView};
use vstd::prelude::*;

verus! {

/// Why a form source is asked about an element.
#[derive(Debug)]
pub enum FormCause {
    Entered,
    Left,
    /// The attribute of that name has changed.
    Attribute(String),
}

/// The view of [`FormCause`].
pub enum FormCauseView {
    Entered,
    Left,
    Attribute(Seq<char>),
}

impl View for FormCause {
    type V = FormCauseView;

    open spec fn view(&self) -> FormCauseView {
        match self {
            FormCause::Entered => FormCauseView::Entered,
            FormCause::Left => FormCauseView::Left,
            FormCause::Attribute(name) => FormCauseView::Attribute(name@),
        }
    }
}

/// What a form source finds out about an element.
#[derive(Debug, Clone, Copy, PartialEq, Eq, Structural)]
pub enum FormStep {
    /// The form that owns the element now.
    Owner { node: NodePtr, form: Option<NodePtr> },
    /// Whether the element is disabled now.
    Disabled { node: NodePtr, disabled: bool },
    /// The form that owns the element was reset.
    Reset { node: NodePtr },
}

/// The element that a step is about.
pub open spec fn subject_of(s: FormStep) -> NodePtr {
    match s {
        FormStep::Owner { node, form } => node,
        FormStep::Disabled { node, disabled } => node,
        FormStep::Reset { node } => node,
    }
}

/// Whether a step names nodes that are there.
pub open spec fn step_ok(s: FormStep, len: nat) -> bool {
    &&& subject_of(s) < len
    &&& s matches FormStep::Owner { node, form: Some(form) } ==> form < len
}

/// Whether all steps name nodes that are there.
pub open spec fn steps_ok(steps: Seq<FormStep>, len: nat) -> bool {
    forall|i: int| 0 <= i < steps.len() ==> step_ok(#[trigger] steps[i], len)
}

/// The definition of an element that takes part in forms.
pub open spec fn form_definition(v: RegistryView, d: DomView, n: NodePtr) -> Option<CeDefinition> {
    match d[n as int] {
        NodeView::Element(el) => match latest(v.ce.definitions, el.tag_name) {
            Some(i) => if v.ce.definitions[i].form_associated {
                Some(v.ce.definitions[i])
            } else {
                None
            },
            None => None,
        },
        _ => None,
    }
}

/// The custom elements after an element was told something, if it has a
/// callback for it.
pub open spec fn form_told(
    ce: CeView,
    id: u32,
    callback: Option<Handle>,
    payload: FormReaction,
) -> CeView {
    match callback {
        Some(callback) => enqueued(ce, id, ReactionView::Form { callback, payload }),
        None => ce,
    }
}

/// Whether an element is recorded as disabled.
pub open spec fn recorded_disabled(ce: CeView, id: u32) -> bool {
    ce.form_disabled.contains_key(id) && ce.form_disabled[id]
}

/// The form owners once that of `id` is recorded.
pub open spec fn owner_recorded(ce: CeView, id: u32, owner: Option<u32>) -> CeView {
    CeView {
        form_owners: match owner {
            Some(form) => ce.form_owners.insert(id, form),
            None => ce.form_owners.remove(id),
        },
        ..ce
    }
}

/// The registry after one step. An element that takes no part in forms is left
/// alone, and a state that is recorded already is not told again.
pub open spec fn form_step(v: RegistryView, d: DomView, s: FormStep) -> RegistryView {
    match form_definition(v, d, subject_of(s)) {
        None => v,
        Some(def) => {
            let id = id_of(v.ids, subject_of(s));
            let ids = registered(v.ids, subject_of(s));
            match s {
                FormStep::Owner { node, form } => {
                    let owner = match form {
                        Some(form) => Some(id_of(ids, form)),
                        None => None,
                    };
                    RegistryView {
                        ids: match form {
                            Some(form) => registered(ids, form),
                            None => ids,
                        },
                        ce: if v.ce.form_owners.get(id) == owner {
                            v.ce
                        } else {
                            form_told(
                                owner_recorded(v.ce, id, owner),
                                id,
                                def.form_associated_callback,
                                FormReaction::Associated { form: owner },
                            )
                        },
                        ..v
                    }
                },
                FormStep::Disabled { node, disabled } => RegistryView {
                    ids,
                    ce: if recorded_disabled(v.ce, id) == disabled {
                        v.ce
                    } else {
                        form_told(
                            CeView {
                                form_disabled: v.ce.form_disabled.insert(id, disabled),
                                ..v.ce
                            },
                            id,
                            def.form_disabled_callback,
                            FormReaction::Disabled { disabled },
                        )
                    },
                    ..v
                },
                FormStep::Reset { node } => RegistryView {
                    ids,
                    ce: form_told(v.ce, id, def.form_reset_callback, FormReaction::Reset),
                    ..v
                },
            }
        },
    }
}

/// The registry after steps, one by one.
pub open spec fn form_steps(v: RegistryView, d: DomView, steps: Seq<FormStep>) -> RegistryView
    decreases steps.len(),
{
    if steps.len() == 0 {
        v
    } else {
        form_step(form_steps(v, d, steps.drop_last()), d, steps.last())
    }
}

fn step_subject(s: FormStep) -> (res: NodePtr)
    ensures
        res == subject_of(s),
{
    match s {
        FormStep::Owner { node, .. } => node,
        FormStep::Disabled { node, .. } => node,
        FormStep::Reset { node } => node,
    }
}

fn tell_form(
    registry: &mut NodeRegistry,
    id: u32,
    callback: Option<Handle>,
    payload: FormReaction,
)
    ensures
        final(registry)@ == (RegistryView {
            ce: form_told(old(registry)@.ce, id, callback, payload),
            ..old(registry)@
        }),
{
    if let Some(callback) = callback {
        registry.custom_elements().enqueue_form(id, callback, payload);
    }
}

fn take_step(registry: &mut NodeRegistry, dom: &Dom, s: FormStep)
    requires
        step_ok(s, dom@.len()),
        next_after(old(registry)@.ids, dom@.len()) <= u32::MAX,
    ensures
        final(registry)@ == form_step(old(registry)@, dom@, s),
        next_after(final(registry)@.ids, dom@.len()) == next_after(
            old(registry)@.ids,
            dom@.len(),
        ),
{
    let ghost v = registry@;
    let node = step_subject(s);
    let def: DefId = match dom.node(node) {
        Node::Element(el) => match registry.ce_registry().lookup(el.tag_name.as_str()) {
            Some(def) => def,
            None => {
                return ;
            },
        },
        _ => {
            return ;
        },
    };
    if !registry.ce_registry().definition(def).form_associated {
        return ;
    }
    let associated = registry.ce_registry().definition(def).form_associated_callback;
    let switched = registry.ce_registry().definition(def).form_disabled_callback;
    let reset = registry.ce_registry().definition(def).form_reset_callback;
    proof {
        dom.lemma_size();
        law_registration_wastes_no_ids(v.ids, node, dom@.len());
    }
    let id: u32 = registry.register(node);
    match s {
        FormStep::Owner { form, .. } => {
            let owner: Option<u32> = match form {
                Some(form) => {
                    proof {
                        law_registration_wastes_no_ids(registry@.ids, form, dom@.len());
                    }
                    Some(registry.register(form))
                },
                None => None,
            };
            if registry.ce_registry().form_owner(id) != owner {
                registry.custom_elements().set_form_owner(id, owner);
                tell_form(registry, id, associated, FormReaction::Associated { form: owner });
            }
        },
        FormStep::Disabled { disabled, .. } => {
            if registry.ce_registry().form_disabled(id) != disabled {
                registry.custom_elements().set_form_disabled(id, disabled);
                tell_form(registry, id, switched, FormReaction::Disabled { disabled });
            }
        },
        FormStep::Reset { .. } => {
            tell_form(registry, id, reset, FormReaction::Reset);
        },
    }
}

/// Records what a form source has found out, and tells the elements for which
/// that is news.
pub fn apply_form_steps(registry: &mut NodeRegistry, dom: &Dom, steps: &Vec<FormStep>)
    requires
        steps_ok(steps@, dom@.len()),
        next_after(old(registry)@.ids, dom@.len()) <= u32::MAX,
    ensures
        final(registry)@ == form_steps(old(registry)@, dom@, steps@),
        next_after(final(registry)@.ids, dom@.len()) == next_after(
            old(registry)@.ids,
            dom@.len(),
        ),
{
    let ghost v = registry@;
    let mut i: usize = 0;
    while i < steps.len()
        invariant
            i <= steps.len(),
            steps_ok(steps@, dom@.len()),
            next_after(v.ids, dom@.len()) <= u32::MAX,
            next_after(registry@.ids, dom@.len()) == next_after(v.ids, dom@.len()),
            registry@ == form_steps(v, dom@, steps@.take(i as int)),
        decreases steps.len() - i,
    {
        take_step(registry, dom, steps[i]);
        i = i + 1;
        assert(steps@.take(i as int).drop_last() =~= steps@.take(i - 1));
    }
    assert(steps@.take(i as int) =~= steps@);
}

/// Whether the form source `f` may answer `steps` about `n`, in the document `d`.
pub open spec fn answered<F: Fn(&Dom, NodePtr, &FormCause) -> Vec<FormStep>>(
    f: F,
    d: DomView,
    n: NodePtr,
    cause: FormCauseView,
    steps: Seq<FormStep>,
) -> bool {
    exists|dom: Dom, why: FormCause, reply: Vec<FormStep>|
        dom@ == d && why@ == cause && reply@ == steps && #[trigger] call_ensures(
            f,
            (&dom, n, &why),
            reply,
        )
}

/// Whether the form source `f` may give `replies` about the elements of a list,
/// one by one.
pub open spec fn answered_all<F: Fn(&Dom, NodePtr, &FormCause) -> Vec<FormStep>>(
    f: F,
    d: DomView,
    list: Seq<NodePtr>,
    cause: FormCauseView,
    replies: Seq<Seq<FormStep>>,
) -> bool {
    &&& list.len() == replies.len()
    &&& forall|i: int|
        0 <= i < list.len() ==> answered(f, d, #[trigger] list[i], cause, replies[i])
}

/// Whether a form source takes every question, and answers with steps that name
/// nodes of the document it was shown.
pub open spec fn is_form_source<F: Fn(&Dom, NodePtr, &FormCause) -> Vec<FormStep>>(f: F) -> bool {
    &&& forall|dom: Dom, n: NodePtr, why: FormCause|
        dom.wf() && n < dom@.len() ==> #[trigger] call_requires(f, (&dom, n, &why))
    &&& forall|dom: Dom, n: NodePtr, why: FormCause, reply: Vec<FormStep>| #[trigger]
        call_ensures(f, (&dom, n, &why), reply) ==> steps_ok(reply@, dom@.len())
}

/// The form source of a document in which no element takes part in forms: it
/// finds out nothing.
pub fn no_forms(_dom: &Dom, _node: NodePtr, _cause: &FormCause) -> (res: Vec<FormStep>)
    ensures
        res@ == Seq::<FormStep>::empty(),
{
    let res: Vec<FormStep> = Vec::new();
    assert(res@ =~= Seq::<FormStep>::empty());
    res
}

/// Asks a form source about an element, and records the answer.
pub fn update_forms<F: Fn(&Dom, NodePtr, &FormCause) -> Vec<FormStep>>(
    registry: &mut NodeRegistry,
    dom: &Dom,
    node: NodePtr,
    cause: FormCause,
    forms: &F,
) -> (res: Vec<FormStep>)
    requires
        dom.wf(),
        node < dom@.len(),
        is_form_source(*forms),
        next_after(old(registry)@.ids, dom@.len()) <= u32::MAX,
    ensures
        answered(*forms, dom@, node, cause@, res@),
        steps_ok(res@, dom@.len()),
        final(registry)@ == form_steps(old(registry)@, dom@, res@),
        next_after(final(registry)@.ids, dom@.len()) == next_after(
            old(registry)@.ids,
            dom@.len(),
        ),
{
    let steps = forms(dom, node, &cause);
    apply_form_steps(registry, dom, &steps);
    steps
}

/// Steps touch ids and custom elements only.
pub proof fn lemma_form_steps_keep(v: RegistryView, d: DomView, steps: Seq<FormStep>)
    ensures
        ({
            let w = form_steps(v, d, steps);
            w == (RegistryView { ids: w.ids, ce: w.ce, ..v })
        }),
    decreases steps.len(),
{
    if steps.len() > 0 {
        lemma_form_steps_keep(v, d, steps.drop_last());
    }
}

/// What an element is told of forms comes behind everything that it is to be
/// told already.
pub proof fn law_forms_are_told_last(v: RegistryView, d: DomView, steps: Seq<FormStep>, id: u32)
    ensures
        pending(v.ce, id).is_prefix_of(pending(form_steps(v, d, steps).ce, id)),
    decreases steps.len(),
{
    if steps.len() > 0 {
        let w = form_steps(v, d, steps.drop_last());
        law_forms_are_told_last(v, d, steps.drop_last(), id);
        let before = pending(w.ce, id);
        let after = pending(form_step(w, d, steps.last()).ce, id);
        assert(before =~= after || before =~= after.drop_last());
        assert(before.is_prefix_of(after));
    }
}

/// What a form source finds out twice in a row is recorded and told once: the
/// second time nothing changes.
pub proof fn law_known_form_states_are_not_told_again(v: RegistryView, d: DomView, s: FormStep)
    requires
        !(s is Reset),
    ensures
        form_step(form_step(v, d, s), d, s).ce == form_step(v, d, s).ce,
{
}

/// An element that takes part in forms and has not been owned by a form is told
/// of its first one.
pub proof fn law_first_forms_are_told(v: RegistryView, d: DomView, n: NodePtr, form: NodePtr)
    requires
        form_definition(v, d, n) is Some,
        !v.ce.form_owners.contains_key(id_of(v.ids, n)),
    ensures
        ({
            let w = form_step(v, d, FormStep::Owner { node: n, form: Some(form) });
            let id = id_of(v.ids, n);
            let owner = id_of(registered(v.ids, n), form);
            &&& w.ce.form_owners.get(id) == Some(owner)
            &&& w.ce == form_told(
                owner_recorded(v.ce, id, Some(owner)),
                id,
                form_definition(v, d, n)->0.form_associated_callback,
                FormReaction::Associated { form: Some(owner) },
            )
        }),
{
}

} // verus!
