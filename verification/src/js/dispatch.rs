//! Applying a mutation to the document.
//!
//! A mutation goes through fixed stages: it is begun, the nodes that leave are
//! told, the tree is changed, form association follows a changed attribute, what
//! was replaced is cleared from the renderer, the nodes that enter are told, the
//! renderer is brought up to date, and the mutation is finished.
//! [`apply_dom_mutation`] runs the stages of a document that is not rendered.

use crate::dom::node::{attribute_of, child_nodes, children_of, closed_links, copy_list, finite_from,
    is_container, is_element_node, is_fragment, links_ok, node_ok, rechilded, relinked,
    remove_attribute, reparent_subtree, set_attribute, set_children, with_attributes, Dom, DomView,
    Node, NodePtr, NodeView, Reach};
use crate::js::custom_elements::text_view;
use crate::js::forms::{answered, answered_all, form_steps, is_form_source, lemma_form_steps_keep,
    update_forms, FormCause, FormCauseView, FormStep};
use crate::js::lifecycle::{all_finite, attribute_told, cause_of, enqueue_attribute_changed_reaction,
    lemma_walk_keeps, load, met, walk_roots, walked, LifecyclePhase, LifecycleWalk, WalkView};
use crate::js::mutation::{append_child_ptr, brought, enough, insert_before_ptr, insertion_nodes,
    place_before, placed, prepend_child_ptr, remove_child_ptr, removed, replace_child_ptr, replaced,
    set_text_content, with_text, Place};
use crate::js::registry::{can_register, ids_of_all, law_registration_wastes_no_ids,
    lemma_registering_wastes_no_ids, next_after, registered_all, Ids, NodeRegistry, ObserverRecord,
    RecordView, RegistryView, SnapshotRebuildReason};
use vstd::prelude::*;

verus! {

#[derive(Debug, Clone, Copy, PartialEq, Eq, Structural)]
pub enum DomMutationKind {
    AppendChild,
    PrependChild,
    InsertBefore,
    RemoveChild,
    ReplaceChild,
    SetAttribute,
    RemoveAttribute,
    SetTextContent,
    ReplaceChildren,
    AttachShadow,
}

/// What became of a mutation.
#[derive(Debug, Clone, Copy, PartialEq, Eq, Structural)]
pub struct DomMutationResult {
    pub kind: DomMutationKind,
    /// Whether the renderer was brought up to date.
    pub render_synced: bool,
    /// The id of the node that was changed.
    pub target_id: u32,
    pub changed: bool,
}

#[derive(Debug)]
pub enum DomMutation<'a> {
    AppendChild { parent: NodePtr, child: NodePtr },
    PrependChild { parent: NodePtr, child: NodePtr },
    InsertBefore { parent: NodePtr, new_child: NodePtr, ref_child: Option<NodePtr> },
    RemoveChild { parent: NodePtr, child: NodePtr },
    ReplaceChild { parent: NodePtr, new_child: NodePtr, old_child: NodePtr },
    SetAttribute { node: NodePtr, name: &'a str, value: &'a str },
    RemoveAttribute { node: NodePtr, name: &'a str },
    SetTextContent { node: NodePtr, text: &'a str },
    ReplaceChildren { node: NodePtr, children: Vec<NodePtr> },
    AttachShadow { host: NodePtr, shadow_root: NodePtr, mode: &'a str },
}

/// The kind of a mutation.
pub open spec fn kind_of(m: DomMutation) -> DomMutationKind {
    match m {
        DomMutation::AppendChild { parent, child } => DomMutationKind::AppendChild,
        DomMutation::PrependChild { parent, child } => DomMutationKind::PrependChild,
        DomMutation::InsertBefore { parent, new_child, ref_child } => DomMutationKind::InsertBefore,
        DomMutation::RemoveChild { parent, child } => DomMutationKind::RemoveChild,
        DomMutation::ReplaceChild { parent, new_child, old_child } => DomMutationKind::ReplaceChild,
        DomMutation::SetAttribute { node, name, value } => DomMutationKind::SetAttribute,
        DomMutation::RemoveAttribute { node, name } => DomMutationKind::RemoveAttribute,
        DomMutation::SetTextContent { node, text } => DomMutationKind::SetTextContent,
        DomMutation::ReplaceChildren { node, children } => DomMutationKind::ReplaceChildren,
        DomMutation::AttachShadow { host, shadow_root, mode } => DomMutationKind::AttachShadow,
    }
}

/// The node that a mutation changes.
pub open spec fn target_of(m: DomMutation) -> NodePtr {
    match m {
        DomMutation::AppendChild { parent, child } => parent,
        DomMutation::PrependChild { parent, child } => parent,
        DomMutation::InsertBefore { parent, new_child, ref_child } => parent,
        DomMutation::RemoveChild { parent, child } => parent,
        DomMutation::ReplaceChild { parent, new_child, old_child } => parent,
        DomMutation::SetAttribute { node, name, value } => node,
        DomMutation::RemoveAttribute { node, name } => node,
        DomMutation::SetTextContent { node, text } => node,
        DomMutation::ReplaceChildren { node, children } => node,
        DomMutation::AttachShadow { host, shadow_root, mode } => host,
    }
}

/// The nodes that a mutation names and inserts one by one.
pub open spec fn inserted_by(d: DomView, m: DomMutation) -> Seq<NodePtr> {
    match m {
        DomMutation::AppendChild { parent, child } => brought(d, child),
        DomMutation::PrependChild { parent, child } => brought(d, child),
        DomMutation::InsertBefore { parent, new_child, ref_child } => brought(d, new_child),
        DomMutation::ReplaceChild { parent, new_child, old_child } => brought(d, new_child),
        _ => Seq::empty(),
    }
}

/// The node that a mutation names and removes.
pub open spec fn removed_by(m: DomMutation) -> Seq<NodePtr> {
    match m {
        DomMutation::RemoveChild { parent, child } => seq![child],
        DomMutation::ReplaceChild { parent, new_child, old_child } => seq![old_child],
        _ => Seq::empty(),
    }
}

/// The subtrees that leave.
pub open spec fn leaving(d: DomView, m: DomMutation) -> Seq<NodePtr> {
    match m {
        DomMutation::RemoveChild { parent, child } => seq![child],
        DomMutation::ReplaceChild { parent, new_child, old_child } => seq![old_child],
        DomMutation::ReplaceChildren { node, children } => children_of(d[node as int]),
        _ => Seq::empty(),
    }
}

/// Whether every pointer of a mutation names a node.
pub open spec fn names_nodes(d: DomView, m: DomMutation) -> bool {
    &&& target_of(m) < d.len()
    &&& match m {
        DomMutation::AppendChild { parent, child } => child < d.len(),
        DomMutation::PrependChild { parent, child } => child < d.len(),
        DomMutation::InsertBefore { parent, new_child, ref_child } => new_child < d.len(),
        DomMutation::RemoveChild { parent, child } => child < d.len(),
        DomMutation::ReplaceChild { parent, new_child, old_child } => {
            &&& new_child < d.len()
            &&& old_child < d.len()
            &&& is_fragment(d[new_child as int]) && new_child != parent && children_of(
                d[parent as int],
            ).contains(old_child) ==> !children_of(d[new_child as int]).contains(parent)
        },
        DomMutation::ReplaceChildren { node, children } => links_ok(children@, d.len()),
        _ => true,
    }
}

/// The ids that a mutation gives out before anything else: to its target, to
/// what it inserts and to what it removes, in that order.
pub open spec fn named_nodes(d: DomView, m: DomMutation) -> Seq<NodePtr> {
    seq![target_of(m)] + inserted_by(d, m) + removed_by(m)
}

/// A mutation that was begun.
#[derive(Debug)]
pub struct Begun {
    pub target_id: u32,
    pub added: Vec<u32>,
    pub removed: Vec<u32>,
    pub inserted: Vec<NodePtr>,
}

/// The registry after a mutation was begun.
pub open spec fn begun(v: RegistryView, d: DomView, m: DomMutation) -> RegistryView {
    RegistryView { ids: registered_all(v.ids, named_nodes(d, m)), ..v }
}

/// The ids of what a mutation names.
pub open spec fn begun_ids(v: RegistryView, d: DomView, m: DomMutation) -> Seq<u32> {
    ids_of_all(v.ids, named_nodes(d, m))
}

/// Whether a record of a mutation's beginning says what it should.
pub open spec fn records_beginning(b: Begun, v: RegistryView, d: DomView, m: DomMutation) -> bool {
    let all = begun_ids(v, d, m);
    let k = 1 + inserted_by(d, m).len();
    &&& b.target_id == all[0]
    &&& b.added@ == all.subrange(1, k as int)
    &&& b.removed@ == all.skip(k as int)
    &&& b.inserted@ == inserted_by(d, m)
}

fn kind_of_mutation(m: &DomMutation) -> (res: DomMutationKind)
    ensures
        res == kind_of(*m),
{
    match m {
        DomMutation::AppendChild { .. } => DomMutationKind::AppendChild,
        DomMutation::PrependChild { .. } => DomMutationKind::PrependChild,
        DomMutation::InsertBefore { .. } => DomMutationKind::InsertBefore,
        DomMutation::RemoveChild { .. } => DomMutationKind::RemoveChild,
        DomMutation::ReplaceChild { .. } => DomMutationKind::ReplaceChild,
        DomMutation::SetAttribute { .. } => DomMutationKind::SetAttribute,
        DomMutation::RemoveAttribute { .. } => DomMutationKind::RemoveAttribute,
        DomMutation::SetTextContent { .. } => DomMutationKind::SetTextContent,
        DomMutation::ReplaceChildren { .. } => DomMutationKind::ReplaceChildren,
        DomMutation::AttachShadow { .. } => DomMutationKind::AttachShadow,
    }
}

/// The node that a mutation changes.
pub fn target_of_mutation(m: &DomMutation) -> (res: NodePtr)
    ensures
        res == target_of(*m),
{
    match m {
        DomMutation::AppendChild { parent, .. } => *parent,
        DomMutation::PrependChild { parent, .. } => *parent,
        DomMutation::InsertBefore { parent, .. } => *parent,
        DomMutation::RemoveChild { parent, .. } => *parent,
        DomMutation::ReplaceChild { parent, .. } => *parent,
        DomMutation::SetAttribute { node, .. } => *node,
        DomMutation::RemoveAttribute { node, .. } => *node,
        DomMutation::SetTextContent { node, .. } => *node,
        DomMutation::ReplaceChildren { node, .. } => *node,
        DomMutation::AttachShadow { host, .. } => *host,
    }
}

fn list_of(x: NodePtr) -> (res: Vec<NodePtr>)
    ensures
        res@ == seq![x],
{
    let mut res: Vec<NodePtr> = Vec::new();
    res.push(x);
    assert(res@ =~= seq![x]);
    res
}

fn inserted_nodes(dom: &Dom, m: &DomMutation) -> (res: Vec<NodePtr>)
    requires
        names_nodes(dom@, *m),
    ensures
        res@ == inserted_by(dom@, *m),
{
    match m {
        DomMutation::AppendChild { child, .. } => insertion_nodes(dom, *child),
        DomMutation::PrependChild { child, .. } => insertion_nodes(dom, *child),
        DomMutation::InsertBefore { new_child, .. } => insertion_nodes(dom, *new_child),
        DomMutation::ReplaceChild { new_child, .. } => insertion_nodes(dom, *new_child),
        _ => Vec::new(),
    }
}

fn removed_nodes(m: &DomMutation) -> (res: Vec<NodePtr>)
    ensures
        res@ == removed_by(*m),
{
    match m {
        DomMutation::RemoveChild { child, .. } => list_of(*child),
        DomMutation::ReplaceChild { old_child, .. } => list_of(*old_child),
        _ => Vec::new(),
    }
}

fn leaving_nodes(dom: &Dom, m: &DomMutation) -> (res: Vec<NodePtr>)
    requires
        names_nodes(dom@, *m),
    ensures
        res@ == leaving(dom@, *m),
{
    match m {
        DomMutation::RemoveChild { child, .. } => list_of(*child),
        DomMutation::ReplaceChild { old_child, .. } => list_of(*old_child),
        DomMutation::ReplaceChildren { node, .. } => child_nodes(dom, *node),
        _ => Vec::new(),
    }
}

proof fn lemma_ids_split(v: Ids, a: Seq<NodePtr>, b: Seq<NodePtr>)
    ensures
        registered_all(v, a + b) == registered_all(registered_all(v, a), b),
        ids_of_all(v, a + b) == ids_of_all(v, a) + ids_of_all(registered_all(v, a), b),
        ids_of_all(v, a).len() == a.len(),
        ids_of_all(registered_all(v, a), b).len() == b.len(),
    decreases b.len(),
{
    if b.len() == 0 {
        assert(a + b =~= a);
        lemma_ids_len(v, a);
        assert(ids_of_all(v, a) + ids_of_all(registered_all(v, a), b) =~= ids_of_all(v, a));
    } else {
        assert((a + b).drop_last() =~= a + b.drop_last());
        lemma_ids_split(v, a, b.drop_last());
        assert(ids_of_all(v, a + b) =~= ids_of_all(v, a) + ids_of_all(registered_all(v, a), b));
    }
}

proof fn lemma_ids_len(v: Ids, a: Seq<NodePtr>)
    ensures
        ids_of_all(v, a).len() == a.len(),
    decreases a.len(),
{
    if a.len() > 0 {
        lemma_ids_len(v, a.drop_last());
    }
}

/// What a mutation names is there.
pub proof fn lemma_named_nodes(d: DomView, m: DomMutation)
    requires
        closed_links(d),
        names_nodes(d, m),
    ensures
        target_of(m) < d.len(),
        forall|i: int| 0 <= i < inserted_by(d, m).len() ==> #[trigger] inserted_by(d, m)[i] < d.len(),
        forall|i: int| 0 <= i < removed_by(m).len() ==> #[trigger] removed_by(m)[i] < d.len(),
{
    match m {
        DomMutation::AppendChild { parent, child } => {
            assert(node_ok(d[child as int], d.len()));
        },
        DomMutation::PrependChild { parent, child } => {
            assert(node_ok(d[child as int], d.len()));
        },
        DomMutation::InsertBefore { parent, new_child, ref_child } => {
            assert(node_ok(d[new_child as int], d.len()));
        },
        DomMutation::ReplaceChild { parent, new_child, old_child } => {
            assert(node_ok(d[new_child as int], d.len()));
        },
        _ => {},
    }
}

/// Begins a mutation: what it names gets ids. The walk tells the nodes that
/// are about to leave; it has to be run before the tree is changed.
pub fn begin_mutation(registry: &mut NodeRegistry, dom: &Dom, m: &DomMutation) -> (res: (
    Begun,
    LifecycleWalk,
))
    requires
        dom.wf(),
        names_nodes(dom@, *m),
        next_after(old(registry)@.ids, dom@.len()) <= u32::MAX,
    ensures
        final(registry)@ == begun(old(registry)@, dom@, *m),
        next_after(final(registry)@.ids, dom@.len()) == next_after(
            old(registry)@.ids,
            dom@.len(),
        ),
        records_beginning(res.0, old(registry)@, dom@, *m),
        res.1.phase is Disconnected,
        res.1.stack@ == walk_roots(old(registry)@, leaving(dom@, *m)),
{
    let ghost v = registry@;
    let target = list_of(target_of_mutation(m));
    let inserted = inserted_nodes(dom, m);
    let gone = removed_nodes(m);
    proof {
        dom.lemma_size();
        lemma_named_nodes(dom@, *m);
        let len = dom@.len();
        lemma_registering_wastes_no_ids(v.ids, target@, len);
        let w = registered_all(v.ids, target@);
        lemma_registering_wastes_no_ids(w, inserted@, len);
        lemma_registering_wastes_no_ids(registered_all(w, inserted@), gone@, len);
    }
    let first = registry.node_ids(&target);
    let added = registry.node_ids(&inserted);
    let removed = registry.node_ids(&gone);
    proof {
        lemma_ids_split(v.ids, target@ + inserted@, gone@);
        lemma_ids_split(v.ids, target@, inserted@);
        let all = begun_ids(v, dom@, *m);
        let k = 1 + inserted@.len();
        assert(all == first@ + added@ + removed@);
        assert(all.subrange(1, k as int) =~= added@);
        assert(all.skip(k as int) =~= removed@);
        assert(all[0] == first@[0]);
    }
    let walk = LifecycleWalk::new(
        registry,
        &leaving_nodes(dom, m),
        LifecyclePhase::Disconnected,
    );
    (Begun { target_id: first[0], added, removed, inserted }, walk)
}

/// The nodes after the tree was changed.
pub open spec fn changed_dom(d: DomView, m: DomMutation) -> DomView {
    match m {
        DomMutation::AppendChild { parent, child } => placed(d, parent, child, Place::End, enough(d)),
        DomMutation::PrependChild { parent, child } => placed(
            d,
            parent,
            child,
            Place::Start,
            enough(d),
        ),
        DomMutation::InsertBefore { parent, new_child, ref_child } => placed(
            d,
            parent,
            new_child,
            place_before(ref_child),
            enough(d),
        ),
        DomMutation::RemoveChild { parent, child } => removed(d, parent, child),
        DomMutation::ReplaceChild { parent, new_child, old_child } => replaced(
            d,
            parent,
            new_child,
            old_child,
        ),
        DomMutation::SetAttribute { node, name, value } => match d[node as int] {
            NodeView::Element(el) => d.update(
                node as int,
                with_attributes(d[node as int], el.attributes.insert(name@, value@)),
            ),
            _ => d,
        },
        DomMutation::RemoveAttribute { node, name } => match d[node as int] {
            NodeView::Element(el) => d.update(
                node as int,
                with_attributes(d[node as int], el.attributes.remove(name@)),
            ),
            _ => d,
        },
        DomMutation::SetTextContent { node, text } => with_text(d, node, text@),
        DomMutation::ReplaceChildren { node, children } => rechilded(d, node, children@),
        DomMutation::AttachShadow { host, shadow_root, mode } => d,
    }
}

/// Whether there is anything to change.
pub open spec fn changes(d: DomView, m: DomMutation) -> bool {
    match m {
        DomMutation::SetAttribute { node, name, value } => d[node as int] is Element,
        DomMutation::RemoveAttribute { node, name } => d[node as int] is Element,
        DomMutation::SetTextContent { node, text } => !(d[node as int] is Document),
        DomMutation::ReplaceChildren { node, children } => is_container(d[node as int]),
        _ => true,
    }
}

/// The registry after the tree was changed: a changed attribute is told, and
/// style is out of date.
pub open spec fn changed_registry(v: RegistryView, d: DomView, m: DomMutation) -> RegistryView {
    match m {
        DomMutation::SetAttribute { node, name, value } => if d[node as int] is Element {
            RegistryView {
                style_dirty: true,
                ..attribute_told(
                    v,
                    changed_dom(d, m),
                    node,
                    name@,
                    attribute_of(d[node as int], name@),
                    Some(value@),
                )
            }
        } else {
            v
        },
        DomMutation::RemoveAttribute { node, name } => if d[node as int] is Element {
            RegistryView {
                style_dirty: true,
                ..if attribute_of(d[node as int], name@) is Some {
                    attribute_told(
                        v,
                        changed_dom(d, m),
                        node,
                        name@,
                        attribute_of(d[node as int], name@),
                        None,
                    )
                } else {
                    v
                }
            }
        } else {
            v
        },
        _ => v,
    }
}

/// Whether the form association of the target has to be brought up to date
/// because one of its attributes changed.
pub open spec fn touches_forms(d: DomView, m: DomMutation) -> bool {
    match m {
        DomMutation::SetAttribute { node, name, value } => d[node as int] is Element,
        DomMutation::RemoveAttribute { node, name } => attribute_of(d[node as int], name@) is Some,
        _ => false,
    }
}

/// What a change of the tree asks for.
#[derive(Debug, Clone, Copy)]
pub struct Change {
    pub changed: bool,
    /// Whether the form association of the target follows.
    pub forms: bool,
}

/// Changes the tree.
pub fn change_tree(registry: &mut NodeRegistry, dom: &mut Dom, m: &DomMutation) -> (res: Change)
    requires
        old(dom).wf(),
        names_nodes(old(dom)@, *m),
        *m is SetAttribute || *m is RemoveAttribute ==> can_register(
            old(registry)@.ids,
            target_of(*m),
        ),
    ensures
        final(dom).wf(),
        final(dom)@ == changed_dom(old(dom)@, *m),
        old(dom)@.len() <= final(dom)@.len() <= old(dom)@.len() + 1,
        final(registry)@ == changed_registry(old(registry)@, old(dom)@, *m),
        res.changed == changes(old(dom)@, *m),
        res.forms == touches_forms(old(dom)@, *m),
{
    let ghost d = dom@;
    match m {
        DomMutation::AppendChild { parent, child } => {
            append_child_ptr(dom, *parent, *child);
            Change { changed: true, forms: false }
        },
        DomMutation::PrependChild { parent, child } => {
            prepend_child_ptr(dom, *parent, *child);
            Change { changed: true, forms: false }
        },
        DomMutation::InsertBefore { parent, new_child, ref_child } => {
            insert_before_ptr(dom, *parent, *new_child, *ref_child);
            Change { changed: true, forms: false }
        },
        DomMutation::RemoveChild { parent, child } => {
            remove_child_ptr(dom, *parent, *child);
            Change { changed: true, forms: false }
        },
        DomMutation::ReplaceChild { parent, new_child, old_child } => {
            replace_child_ptr(dom, *parent, *new_child, *old_child);
            Change { changed: true, forms: false }
        },
        DomMutation::SetAttribute { node, name, value } => {
            if !is_element_node(dom, *node) {
                return Change { changed: false, forms: false };
            }
            let old_value = set_attribute(dom, *node, *name, *value);
            assert(text_view(old_value) == attribute_of(d[*node as int], name@));
            enqueue_attribute_changed_reaction(
                registry,
                dom,
                *node,
                *name,
                old_value,
                Some((*value).to_owned()),
            );
            registry.mark_style_dirty();
            Change { changed: true, forms: true }
        },
        DomMutation::RemoveAttribute { node, name } => {
            if !is_element_node(dom, *node) {
                return Change { changed: false, forms: false };
            }
            let old_value = remove_attribute(dom, *node, *name);
            assert(text_view(old_value) == attribute_of(d[*node as int], name@));
            let existed = old_value.is_some();
            if existed {
                enqueue_attribute_changed_reaction(registry, dom, *node, *name, old_value, None);
            }
            registry.mark_style_dirty();
            Change { changed: true, forms: existed }
        },
        DomMutation::SetTextContent { node, text } => {
            let changed = match dom.node(*node) {
                Node::Document { .. } => false,
                _ => true,
            };
            set_text_content(dom, *node, *text);
            Change { changed, forms: false }
        },
        DomMutation::ReplaceChildren { node, children } => {
            let changed = match dom.node(*node) {
                Node::Document { .. } => true,
                Node::Element(_) => true,
                _ => false,
            };
            set_children(dom, *node, copy_list(children));
            Change { changed, forms: false }
        },
        DomMutation::AttachShadow { .. } => Change { changed: true, forms: false },
    }
}

/// The attribute that a mutation changes.
pub open spec fn attribute_by(m: DomMutation) -> Seq<char> {
    match m {
        DomMutation::SetAttribute { node, name, value } => name@,
        DomMutation::RemoveAttribute { node, name } => name@,
        _ => Seq::empty(),
    }
}

/// Asks the form source `forms` about the target of a mutation that changed one
/// of its attributes, and records the answer.
pub fn follow_attribute<F: Fn(&Dom, NodePtr, &FormCause) -> Vec<FormStep>>(
    registry: &mut NodeRegistry,
    dom: &Dom,
    m: &DomMutation,
    forms: &F,
) -> (res: Vec<FormStep>)
    requires
        dom.wf(),
        target_of(*m) < dom@.len(),
        is_form_source(*forms),
        next_after(old(registry)@.ids, dom@.len()) <= u32::MAX,
    ensures
        answered(
            *forms,
            dom@,
            target_of(*m),
            FormCauseView::Attribute(attribute_by(*m)),
            res@,
        ),
        final(registry)@ == form_steps(old(registry)@, dom@, res@),
        next_after(final(registry)@.ids, dom@.len()) == next_after(
            old(registry)@.ids,
            dom@.len(),
        ),
{
    let name = match m {
        DomMutation::SetAttribute { name, .. } => (*name).to_owned(),
        DomMutation::RemoveAttribute { name, .. } => (*name).to_owned(),
        _ => String::new(),
    };
    assert(name@ =~= attribute_by(*m));
    update_forms(registry, dom, target_of_mutation(m), FormCause::Attribute(name), forms)
}

/// Whether the renderer has to drop the children of the target before their
/// successors are linked. It makes no difference whether `d` is the document
/// before the change or after it.
pub open spec fn clears(d: DomView, m: DomMutation) -> bool {
    match m {
        DomMutation::SetTextContent { node, text } => d[node as int] is Element,
        DomMutation::ReplaceChildren { node, children } => is_container(d[node as int]),
        _ => false,
    }
}

/// The node whose rendered children the renderer drops, once the tree has
/// changed and before what enters is linked.
pub fn clears_first(dom: &Dom, m: &DomMutation, changed: bool) -> (res: Option<NodePtr>)
    requires
        target_of(*m) < dom@.len(),
    ensures
        res == (if changed && clears(dom@, *m) {
            Some(target_of(*m))
        } else {
            None
        }),
{
    if !changed {
        return None;
    }
    match m {
        DomMutation::SetTextContent { node, .. } => if is_element_node(dom, *node) {
            Some(*node)
        } else {
            None
        },
        DomMutation::ReplaceChildren { node, .. } => match dom.node(*node) {
            Node::Document { .. } => Some(*node),
            Node::Element(_) => Some(*node),
            _ => None,
        },
        _ => None,
    }
}

/// What the renderer is brought up to date by.
#[derive(Debug)]
pub enum RenderStep {
    /// Nodes that were put below `parent` get their places.
    Insert { parent: NodePtr, nodes: Vec<NodePtr> },
    /// A node is taken out, if it is rendered.
    Remove(NodePtr),
    SetAttribute { node: NodePtr, name: String, value: String },
    RemoveAttribute { node: NodePtr, name: String },
    /// A node gets its character data.
    SetText { node: NodePtr, text: String },
    /// The rendered children of a node are replaced by those that it has now.
    ReplaceChildren(NodePtr),
    AttachShadow { host: NodePtr, shadow_root: NodePtr, mode: String },
}

/// The view of [`RenderStep`].
pub enum RenderStepView {
    Insert { parent: NodePtr, nodes: Seq<NodePtr> },
    Remove(NodePtr),
    SetAttribute { node: NodePtr, name: Seq<char>, value: Seq<char> },
    RemoveAttribute { node: NodePtr, name: Seq<char> },
    SetText { node: NodePtr, text: Seq<char> },
    ReplaceChildren(NodePtr),
    AttachShadow { host: NodePtr, shadow_root: NodePtr, mode: Seq<char> },
}

impl View for RenderStep {
    type V = RenderStepView;

    open spec fn view(&self) -> RenderStepView {
        match self {
            RenderStep::Insert { parent, nodes } => RenderStepView::Insert {
                parent: *parent,
                nodes: nodes@,
            },
            RenderStep::Remove(node) => RenderStepView::Remove(*node),
            RenderStep::SetAttribute { node, name, value } => RenderStepView::SetAttribute {
                node: *node,
                name: name@,
                value: value@,
            },
            RenderStep::RemoveAttribute { node, name } => RenderStepView::RemoveAttribute {
                node: *node,
                name: name@,
            },
            RenderStep::SetText { node, text } => RenderStepView::SetText {
                node: *node,
                text: text@,
            },
            RenderStep::ReplaceChildren(node) => RenderStepView::ReplaceChildren(*node),
            RenderStep::AttachShadow { host, shadow_root, mode } => RenderStepView::AttachShadow {
                host: *host,
                shadow_root: *shadow_root,
                mode: mode@,
            },
        }
    }
}

/// The views of a list of steps.
pub open spec fn step_views(s: Seq<RenderStep>) -> Seq<RenderStepView> {
    s.map_values(|step: RenderStep| step@)
}

/// The steps that bring the renderer up to date after a mutation, in order:
/// `d` is the document after it, and `inserted` what was inserted node by node.
/// A mutation that changed nothing takes none.
pub open spec fn steps_of(
    d: DomView,
    m: DomMutation,
    changed: bool,
    inserted: Seq<NodePtr>,
) -> Seq<RenderStepView> {
    if !changed {
        Seq::empty()
    } else {
        match m {
            DomMutation::AppendChild { parent, child } => seq![
                RenderStepView::Insert { parent, nodes: inserted },
            ],
            DomMutation::PrependChild { parent, child } => seq![
                RenderStepView::Insert { parent, nodes: inserted },
            ],
            DomMutation::InsertBefore { parent, new_child, ref_child } => seq![
                RenderStepView::Insert { parent, nodes: inserted },
            ],
            DomMutation::RemoveChild { parent, child } => seq![RenderStepView::Remove(child)],
            DomMutation::ReplaceChild { parent, new_child, old_child } => seq![
                RenderStepView::Remove(old_child),
                RenderStepView::Insert { parent, nodes: inserted },
            ],
            DomMutation::SetAttribute { node, name, value } => seq![
                RenderStepView::SetAttribute { node, name: name@, value: value@ },
            ],
            DomMutation::RemoveAttribute { node, name } => seq![
                RenderStepView::RemoveAttribute { node, name: name@ },
            ],
            DomMutation::SetTextContent { node, text } => if d[node as int] is Element {
                seq![RenderStepView::ReplaceChildren(node)]
            } else {
                seq![RenderStepView::SetText { node, text: text@ }]
            },
            DomMutation::ReplaceChildren { node, children } => seq![
                RenderStepView::ReplaceChildren(node),
            ],
            DomMutation::AttachShadow { host, shadow_root, mode } => seq![
                RenderStepView::AttachShadow { host, shadow_root, mode: mode@ },
            ],
        }
    }
}

/// The steps that bring the renderer up to date after a mutation. They are
/// taken in order up to the first that fails, also where dropping the children
/// of [`clears_first`] has failed.
pub fn render_steps(dom: &Dom, m: &DomMutation, changed: bool, inserted: &Vec<NodePtr>) -> (res: Vec<
    RenderStep,
>)
    requires
        target_of(*m) < dom@.len(),
    ensures
        step_views(res@) == steps_of(dom@, *m, changed, inserted@),
{
    let mut res: Vec<RenderStep> = Vec::new();
    if changed {
        match m {
            DomMutation::AppendChild { parent, .. } => {
                res.push(RenderStep::Insert { parent: *parent, nodes: copy_list(inserted) });
            },
            DomMutation::PrependChild { parent, .. } => {
                res.push(RenderStep::Insert { parent: *parent, nodes: copy_list(inserted) });
            },
            DomMutation::InsertBefore { parent, .. } => {
                res.push(RenderStep::Insert { parent: *parent, nodes: copy_list(inserted) });
            },
            DomMutation::RemoveChild { child, .. } => {
                res.push(RenderStep::Remove(*child));
            },
            DomMutation::ReplaceChild { parent, old_child, .. } => {
                res.push(RenderStep::Remove(*old_child));
                res.push(RenderStep::Insert { parent: *parent, nodes: copy_list(inserted) });
            },
            DomMutation::SetAttribute { node, name, value } => {
                res.push(
                    RenderStep::SetAttribute {
                        node: *node,
                        name: (*name).to_owned(),
                        value: (*value).to_owned(),
                    },
                );
            },
            DomMutation::RemoveAttribute { node, name } => {
                res.push(RenderStep::RemoveAttribute { node: *node, name: (*name).to_owned() });
            },
            DomMutation::SetTextContent { node, text } => {
                if is_element_node(dom, *node) {
                    res.push(RenderStep::ReplaceChildren(*node));
                } else {
                    res.push(RenderStep::SetText { node: *node, text: (*text).to_owned() });
                }
            },
            DomMutation::ReplaceChildren { node, .. } => {
                res.push(RenderStep::ReplaceChildren(*node));
            },
            DomMutation::AttachShadow { host, shadow_root, mode } => {
                res.push(
                    RenderStep::AttachShadow {
                        host: *host,
                        shadow_root: *shadow_root,
                        mode: (*mode).to_owned(),
                    },
                );
            },
        }
    }
    assert(step_views(res@) =~= steps_of(dom@, *m, changed, inserted@));
    res
}

/// Whether the renderer is up to date: the children to be dropped were dropped,
/// and all of `steps` steps were taken and none failed.
pub fn is_synced(cleared: bool, outcomes: &Vec<bool>, steps: usize) -> (res: bool)
    ensures
        res == (cleared && outcomes@.len() == steps && !outcomes@.contains(false)),
{
    let mut i: usize = 0;
    while i < outcomes.len()
        invariant
            i <= outcomes.len(),
            forall|j: int| 0 <= j < i ==> #[trigger] outcomes@[j],
        decreases outcomes.len() - i,
    {
        if !outcomes[i] {
            assert(outcomes@[i as int] == false);
            return false;
        }
        i = i + 1;
    }
    cleared && outcomes.len() == steps
}

/// The nodes once what enters is linked: `e` is the document after the change.
pub open spec fn entered(e: DomView, m: DomMutation) -> DomView {
    if clears(e, m) {
        relinked(e, target_of(m), e.len())
    } else {
        e
    }
}

/// The subtrees that enter, given what was inserted node by node.
pub open spec fn entering(d: DomView, m: DomMutation, inserted: Seq<NodePtr>) -> Seq<NodePtr> {
    match m {
        DomMutation::ReplaceChildren { node, children } => if is_container(d[node as int]) {
            children@
        } else {
            Seq::empty()
        },
        _ => inserted,
    }
}

/// The nodes after a mutation.
pub open spec fn linked_dom(d: DomView, m: DomMutation) -> DomView {
    entered(changed_dom(d, m), m)
}

/// Links what enters below the target. The walk tells it.
pub fn enter_nodes(
    registry: &NodeRegistry,
    dom: &mut Dom,
    m: &DomMutation,
    inserted: &Vec<NodePtr>,
) -> (res: LifecycleWalk)
    requires
        old(dom).wf(),
        *m is SetTextContent || *m is ReplaceChildren ==> target_of(*m) < old(dom)@.len(),
        clears(old(dom)@, *m) ==> finite_from(old(dom)@, target_of(*m), Reach::All),
    ensures
        final(dom).wf(),
        final(dom)@ == entered(old(dom)@, *m),
        final(dom)@.len() == old(dom)@.len(),
        res.phase is Connected,
        res.stack@ == walk_roots(registry@, entering(old(dom)@, *m, inserted@)),
{
    match m {
        DomMutation::SetTextContent { node, .. } => {
            if is_element_node(dom, *node) {
                reparent_subtree(dom, *node);
            }
        },
        DomMutation::ReplaceChildren { node, .. } => {
            let container = match dom.node(*node) {
                Node::Document { .. } => true,
                Node::Element(_) => true,
                _ => false,
            };
            if container {
                reparent_subtree(dom, *node);
                let roots = match m {
                    DomMutation::ReplaceChildren { children, .. } => copy_list(children),
                    _ => Vec::new(),
                };
                return LifecycleWalk::new(registry, &roots, LifecyclePhase::Connected);
            }
            let none: Vec<NodePtr> = Vec::new();
            assert(none@ =~= Seq::<NodePtr>::empty());
            return LifecycleWalk::new(registry, &none, LifecyclePhase::Connected);
        },
        _ => {},
    }
    LifecycleWalk::new(registry, inserted, LifecyclePhase::Connected)
}

/// Whether a mutation changes a child list node by node.
pub open spec fn moves_children(m: DomMutation) -> bool {
    m is AppendChild || m is PrependChild || m is InsertBefore || m is RemoveChild || m
        is ReplaceChild
}

/// The registry after a mutation was finished.
pub open spec fn finished_registry(v: RegistryView, m: DomMutation, changed: bool, synced: bool) -> RegistryView {
    RegistryView {
        layout_dirty: v.layout_dirty || moves_children(m),
        rebuild: if changed && !synced {
            Some(SnapshotRebuildReason::SyncOperationFailed)
        } else {
            v.rebuild
        },
        ..v
    }
}

/// The record that observers get of a mutation that was carried over to the
/// renderer.
pub open spec fn record_of(m: DomMutation, b: Begun, changed: bool, synced: bool) -> Option<RecordView> {
    if !changed || !synced {
        None
    } else if moves_children(m) {
        Some(
            RecordView::ChildList { target_id: b.target_id, added: b.added@, removed: b.removed@ },
        )
    } else {
        match m {
            DomMutation::SetAttribute { node, name, value } => Some(
                RecordView::Attribute { target_id: b.target_id, name: name@ },
            ),
            DomMutation::RemoveAttribute { node, name } => Some(
                RecordView::Attribute { target_id: b.target_id, name: name@ },
            ),
            _ => None,
        }
    }
}

/// The view of a record that may be absent.
pub open spec fn record_view(r: Option<ObserverRecord>) -> Option<RecordView> {
    match r {
        Some(x) => Some(x@),
        None => None,
    }
}

/// Finishes a mutation, given whether the renderer was brought up to date.
/// Where it was not, it has to be built anew, and observers get no record.
pub fn finish_mutation(
    registry: &mut NodeRegistry,
    m: &DomMutation,
    begun: Begun,
    changed: bool,
    render_synced: bool,
) -> (res: (DomMutationResult, Option<ObserverRecord>))
    ensures
        final(registry)@ == finished_registry(old(registry)@, *m, changed, render_synced),
        res.0 == (DomMutationResult {
            kind: kind_of(*m),
            render_synced: render_synced || !changed,
            target_id: begun.target_id,
            changed,
        }),
        record_view(res.1) == record_of(*m, begun, changed, render_synced),
{
    let result = DomMutationResult {
        kind: kind_of_mutation(m),
        render_synced: render_synced || !changed,
        target_id: begun.target_id,
        changed,
    };
    if changed && !render_synced {
        registry.schedule_snapshot_rebuild_reason(SnapshotRebuildReason::SyncOperationFailed);
    }
    let list = match m {
        DomMutation::AppendChild { .. } => true,
        DomMutation::PrependChild { .. } => true,
        DomMutation::InsertBefore { .. } => true,
        DomMutation::RemoveChild { .. } => true,
        DomMutation::ReplaceChild { .. } => true,
        _ => false,
    };
    if list {
        registry.mark_layout_dirty();
    }
    if !changed || !render_synced {
        return (result, None);
    }
    let record = if list {
        Some(
            ObserverRecord::ChildList {
                target_id: begun.target_id,
                added: begun.added,
                removed: begun.removed,
            },
        )
    } else {
        match m {
            DomMutation::SetAttribute { name, .. } => Some(
                ObserverRecord::Attribute {
                    target_id: begun.target_id,
                    name: (*name).to_owned(),
                },
            ),
            DomMutation::RemoveAttribute { name, .. } => Some(
                ObserverRecord::Attribute {
                    target_id: begun.target_id,
                    name: (*name).to_owned(),
                },
            ),
            _ => None,
        }
    };
    (result, record)
}

/// What a form source answers in the course of a mutation: about the elements
/// that leave, about the target if one of its attributes changed, and about the
/// elements that enter.
pub struct FormReplies {
    pub left: Seq<Seq<FormStep>>,
    pub changed: Seq<FormStep>,
    pub entered: Seq<Seq<FormStep>>,
}

/// No answers.
pub open spec fn no_replies() -> FormReplies {
    FormReplies { left: Seq::empty(), changed: Seq::empty(), entered: Seq::empty() }
}

/// The walk over what leaves, at its start.
pub open spec fn leaving_walk(v: RegistryView, d: DomView, m: DomMutation) -> WalkView {
    WalkView { registry: begun(v, d, m), stack: walk_roots(v, leaving(d, m)) }
}

/// The registry once the nodes that leave have been told.
pub open spec fn after_leaving(
    v: RegistryView,
    d: DomView,
    m: DomMutation,
    r: FormReplies,
) -> RegistryView {
    let w = leaving_walk(v, d, m);
    walked(w, d, v.document->0, LifecyclePhase::Disconnected, r.left, load(d, w.stack))
}

/// The registry once the tree was changed and forms have followed.
pub open spec fn after_change(
    v: RegistryView,
    d: DomView,
    m: DomMutation,
    r: FormReplies,
) -> RegistryView {
    let w = changed_registry(after_leaving(v, d, m, r), d, m);
    if touches_forms(d, m) {
        form_steps(w, changed_dom(d, m), r.changed)
    } else {
        w
    }
}

/// The walk over what enters, at its start.
pub open spec fn entering_walk(
    v: RegistryView,
    d: DomView,
    m: DomMutation,
    r: FormReplies,
) -> WalkView {
    WalkView {
        registry: after_change(v, d, m, r),
        stack: walk_roots(v, entering(d, m, inserted_by(d, m))),
    }
}

/// The registry once the nodes that enter have been told.
pub open spec fn after_entering(
    v: RegistryView,
    d: DomView,
    m: DomMutation,
    r: FormReplies,
) -> RegistryView {
    let w = entering_walk(v, d, m, r);
    let e = linked_dom(d, m);
    walked(w, e, v.document->0, LifecyclePhase::Connected, r.entered, load(e, w.stack))
}

/// The registry after a mutation of a document that is not rendered.
pub open spec fn mutated(v: RegistryView, d: DomView, m: DomMutation, r: FormReplies) -> RegistryView {
    finished_registry(after_entering(v, d, m, r), m, changes(d, m), true)
}

/// Whether the form source `f` may give the answers `r` in the course of a
/// mutation: each about the element, and the document, that it is asked about.
pub open spec fn replied<F: Fn(&Dom, NodePtr, &FormCause) -> Vec<FormStep>>(
    f: F,
    v: RegistryView,
    d: DomView,
    m: DomMutation,
    r: FormReplies,
) -> bool {
    let out = leaving_walk(v, d, m);
    let back = entering_walk(v, d, m, r);
    let e = linked_dom(d, m);
    let gone = met(
        out,
        d,
        v.document->0,
        LifecyclePhase::Disconnected,
        r.left,
        load(d, out.stack),
    );
    let come = met(
        back,
        e,
        v.document->0,
        LifecyclePhase::Connected,
        r.entered,
        load(e, back.stack),
    );
    &&& answered_all(f, d, gone, FormCauseView::Left, r.left)
    &&& touches_forms(d, m) ==> answered(
        f,
        changed_dom(d, m),
        target_of(m),
        FormCauseView::Attribute(attribute_by(m)),
        r.changed,
    )
    &&& answered_all(f, e, come, FormCauseView::Entered, r.entered)
}

/// Whether a mutation names nodes that are there, its walks end, and there are
/// ids for all nodes.
pub open spec fn can_mutate(v: RegistryView, d: DomView, m: DomMutation) -> bool {
    let out = walk_roots(v, leaving(d, m));
    let back = walk_roots(v, entering(d, m, inserted_by(d, m)));
    &&& names_nodes(d, m)
    &&& all_finite(d, out)
    &&& clears(d, m) ==> finite_from(changed_dom(d, m), target_of(m), Reach::All)
    &&& all_finite(linked_dom(d, m), back)
    &&& next_after(v.ids, d.len()) < u32::MAX
}

/// Up to what enters, a mutation touches ids, custom elements and style only.
proof fn lemma_change_keeps(v: RegistryView, d: DomView, m: DomMutation, r: FormReplies)
    ensures
        ({
            let w = after_change(v, d, m, r);
            w == (RegistryView { ids: w.ids, ce: w.ce, style_dirty: w.style_dirty, ..v })
        }),
{
    let out = leaving_walk(v, d, m);
    lemma_walk_keeps(
        out,
        d,
        v.document->0,
        LifecyclePhase::Disconnected,
        r.left,
        load(d, out.stack),
    );
    let w = changed_registry(after_leaving(v, d, m, r), d, m);
    lemma_form_steps_keep(w, changed_dom(d, m), r.changed);
}

/// A mutation that moves no node and changes no attribute asks nothing of the
/// form source.
pub proof fn lemma_quiet(v: RegistryView, d: DomView, m: DomMutation, r: FormReplies)
    requires
        m is AttachShadow,
    ensures
        mutated(v, d, m, r) == mutated(v, d, m, no_replies()),
{
    assert(walk_roots(v, leaving(d, m)) =~= Seq::<NodePtr>::empty());
    assert(walk_roots(v, entering(d, m, inserted_by(d, m))) =~= Seq::<NodePtr>::empty());
}

/// Applies a mutation to a document that is not rendered. The form source
/// `forms` is asked about each connected element that leaves or enters, and about
/// the target if one of its attributes changed.
pub fn apply_dom_mutation<F: Fn(&Dom, NodePtr, &FormCause) -> Vec<FormStep>>(
    registry: &mut NodeRegistry,
    dom: &mut Dom,
    m: &DomMutation,
    forms: &F,
) -> (res: (DomMutationResult, Option<ObserverRecord>))
    requires
        old(dom).wf(),
        can_mutate(old(registry)@, old(dom)@, *m),
        is_form_source(*forms),
    ensures
        final(dom).wf(),
        final(dom)@ == linked_dom(old(dom)@, *m),
        exists|r: FormReplies| #[trigger]
            replied(*forms, old(registry)@, old(dom)@, *m, r) && final(registry)@ == mutated(
                old(registry)@,
                old(dom)@,
                *m,
                r,
            ),
        next_after(final(registry)@.ids, final(dom)@.len()) - final(dom)@.len() <= next_after(
            old(registry)@.ids,
            old(dom)@.len(),
        ) - old(dom)@.len(),
        res.0 == (DomMutationResult {
            kind: kind_of(*m),
            render_synced: true,
            target_id: begun_ids(old(registry)@, old(dom)@, *m)[0],
            changed: changes(old(dom)@, *m),
        }),
        exists|b: Begun|
            records_beginning(b, old(registry)@, old(dom)@, *m) && record_view(res.1) == record_of(
                *m,
                b,
                changes(old(dom)@, *m),
                true,
            ),
{
    let ghost v = registry@;
    let ghost d = dom@;
    let ghost mut r = no_replies();
    let (names, mut out) = begin_mutation(registry, dom, m);
    let ghost b = names;
    let ghost first = leaving_walk(v, d, *m);
    if let Some(document) = registry.document() {
        let gone = out.run(registry, dom, document, forms);
        proof {
            let left = choose|left: Seq<Seq<FormStep>>|
                {
                    let fuel = load(d, first.stack);
                    let phase = LifecyclePhase::Disconnected;
                    &&& #[trigger] answered_all(
                        *forms,
                        d,
                        gone@,
                        cause_of(LifecyclePhase::Disconnected),
                        left,
                    )
                    &&& gone@ == met(first, d, document, phase, left, fuel)
                    &&& registry@ == walked(first, d, document, phase, left, fuel)
                };
            r = FormReplies { left, ..r };
        }
    }
    let ghost left = registry@;
    proof {
        assert(left == after_leaving(v, d, *m, r));
        dom.lemma_size();
        law_registration_wastes_no_ids(left.ids, target_of(*m), d.len());
    }
    let change = change_tree(registry, dom, m);
    proof {
        lemma_target_stays(d, *m);
        assert(next_after(registry@.ids, d.len()) == next_after(v.ids, d.len()));
    }
    if change.forms {
        let steps = follow_attribute(registry, dom, m, forms);
        proof {
            r = FormReplies { changed: steps@, ..r };
        }
    }
    let ghost w = registry@;
    proof {
        assert(w == after_change(v, d, *m, r));
        lemma_change_keeps(v, d, *m, r);
        assert(next_after(w.ids, (d.len() + 1) as nat) <= next_after(w.ids, d.len()) + 1);
    }
    let mut back = enter_nodes(registry, dom, m, &names.inserted);
    let ghost second = entering_walk(v, d, *m, r);
    if let Some(document) = registry.document() {
        let come = back.run(registry, dom, document, forms);
        proof {
            let e = dom@;
            let entered = choose|entered: Seq<Seq<FormStep>>|
                {
                    let fuel = load(e, second.stack);
                    let phase = LifecyclePhase::Connected;
                    &&& #[trigger] answered_all(
                        *forms,
                        e,
                        come@,
                        cause_of(LifecyclePhase::Connected),
                        entered,
                    )
                    &&& come@ == met(second, e, document, phase, entered, fuel)
                    &&& registry@ == walked(second, e, document, phase, entered, fuel)
                };
            r = FormReplies { entered, ..r };
        }
    }
    assert(registry@ == after_entering(v, d, *m, r));
    assert(replied(*forms, v, d, *m, r));
    let res = finish_mutation(registry, m, names, change.changed, true);
    assert(records_beginning(b, v, d, *m));
    res
}

proof fn lemma_target_stays(d: DomView, m: DomMutation)
    requires
        names_nodes(d, m),
    ensures
        clears(changed_dom(d, m), m) == clears(d, m),
        m is ReplaceChildren ==> is_container(changed_dom(d, m)[target_of(m) as int])
            == is_container(d[target_of(m) as int]),
{
}

/// A change that the renderer did not take over is not shown to observers, and
/// the renderer is built anew.
pub proof fn law_failed_sync_is_repaired_and_unobserved(v: RegistryView, m: DomMutation, b: Begun)
    ensures
        finished_registry(v, m, true, false).rebuild == Some(
            SnapshotRebuildReason::SyncOperationFailed,
        ),
        record_of(m, b, true, false) is None,
{
}

/// Moving children leaves layout out of date, and changing an attribute of an
/// element leaves style out of date.
pub proof fn law_mutations_are_not_overlooked(
    v: RegistryView,
    d: DomView,
    m: DomMutation,
    r: FormReplies,
)
    requires
        names_nodes(d, m),
    ensures
        moves_children(m) ==> mutated(v, d, m, r).layout_dirty,
        (m is SetAttribute || m is RemoveAttribute) && d[target_of(m) as int] is Element
            ==> mutated(v, d, m, r).style_dirty,
{
    if m is SetAttribute || m is RemoveAttribute {
        assert(walk_roots(v, leaving(d, m)) =~= Seq::<NodePtr>::empty());
        assert(walk_roots(v, entering(d, m, inserted_by(d, m))) =~= Seq::<NodePtr>::empty());
        let w = changed_registry(after_leaving(v, d, m, r), d, m);
        lemma_form_steps_keep(w, changed_dom(d, m), r.changed);
    }
}

} // verus!
