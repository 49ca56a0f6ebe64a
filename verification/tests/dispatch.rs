//! Changing the tree, and what follows from it for scripts.

use aurora::dom::attributes::Attributes;
use aurora::dom::node::{attribute, child_nodes, parent_ptr, reparent_subtree, set_parent,
    template_contents, Dom, Node, NodePtr};
use aurora::dom::shadow::{ShadowTreeBackend, SyntheticShadowTreeBackend};
use aurora::dom::walks::{is_acyclic, is_held};
use aurora::js::acyclic::keeps_acyclic;
use aurora::js::clone::clone_node;
use aurora::js::custom_elements::{CeDefinition, CeState, FormReaction, Reaction};
use aurora::js::dispatch::{apply_dom_mutation, begin_mutation, change_tree, clears_first,
    follow_attribute, is_synced, render_steps, DomMutation, DomMutationKind, RenderStep};
use aurora::js::forms::{apply_form_steps, no_forms, update_forms, FormCause, FormStep};
use aurora::js::lifecycle::{LifecyclePhase, LifecycleWalk};
use aurora::js::mutation::{append_child_ptr, collect_text, contains_ptr, insert_before_ptr,
    insertion_nodes, is_connected_to, position_of, prepend_child_ptr, remove_child_ptr,
    replace_child_ptr, set_text_content, take_document_fragment_children};
use aurora::js::reactions::{begin_construction, begin_upgrade, enqueue_adopted_reactions,
    finish_upgrade, invocation_of, reactions_for_turn, try_upgrade_element, Drain, Invocation,
    MAX_DRAIN_ROUNDS};
use aurora::js::registry::{NodeRegistry, ObserverRecord, SnapshotRebuildReason};

fn registry() -> NodeRegistry {
    NodeRegistry::new(true)
}

fn element(dom: &mut Dom, tag: &str) -> NodePtr {
    Node::element(dom, tag, Vec::new())
}

#[test]
fn dispatcher_applies_append_child_and_marks_dirty() {
    let mut registry = registry();
    let mut dom = Dom::new();
    let parent = element(&mut dom, "div");
    let child = element(&mut dom, "span");

    let (result, record) = apply_dom_mutation(
        &mut registry,
        &mut dom,
        &DomMutation::AppendChild { parent, child },
        &no_forms,
    );

    assert_eq!(result.kind, DomMutationKind::AppendChild);
    assert!(result.render_synced);
    assert_eq!(child_nodes(&dom, parent).len(), 1);
    assert_eq!(child_nodes(&dom, parent)[0], child);
    assert!(registry.has_dirty_bits());
    match record {
        Some(ObserverRecord::ChildList { target_id, added, removed }) => {
            assert_eq!(registry.lookup(target_id), Some(parent));
            assert_eq!(added.len(), 1);
            assert_eq!(registry.lookup(added[0]), Some(child));
            assert!(removed.is_empty());
        }
        _ => panic!("expected a record of the child list"),
    }
}

#[test]
fn dispatcher_applies_insert_before() {
    let mut registry = registry();
    let mut dom = Dom::new();
    let first = element(&mut dom, "first");
    let second = element(&mut dom, "second");
    let parent = Node::element(&mut dom, "div", vec![second]);
    reparent_subtree(&mut dom, parent);

    let (result, _) = apply_dom_mutation(
        &mut registry,
        &mut dom,
        &DomMutation::InsertBefore { parent, new_child: first, ref_child: Some(second) },
        &no_forms,
    );

    let children = child_nodes(&dom, parent);
    assert_eq!(result.kind, DomMutationKind::InsertBefore);
    assert_eq!(children[0], first);
    assert_eq!(children[1], second);
    assert!(registry.has_dirty_bits());
}

#[test]
fn dispatcher_insert_before_document_fragment_preserves_order() {
    let mut registry = registry();
    let mut dom = Dom::new();
    let first = element(&mut dom, "first");
    let second = element(&mut dom, "second");
    let anchor = element(&mut dom, "anchor");
    let fragment = Node::document_fragment(&mut dom, vec![first, second]);
    let parent = Node::element(&mut dom, "div", vec![anchor]);
    reparent_subtree(&mut dom, parent);

    let (result, _) = apply_dom_mutation(
        &mut registry,
        &mut dom,
        &DomMutation::InsertBefore { parent, new_child: fragment, ref_child: Some(anchor) },
        &no_forms,
    );

    let children = child_nodes(&dom, parent);
    assert_eq!(result.kind, DomMutationKind::InsertBefore);
    assert_eq!(children.len(), 3);
    assert_eq!(children[0], first);
    assert_eq!(children[1], second);
    assert_eq!(children[2], anchor);
    assert!(child_nodes(&dom, fragment).is_empty());
}

#[test]
fn dispatcher_applies_remove_child() {
    let mut registry = registry();
    let mut dom = Dom::new();
    let child = element(&mut dom, "span");
    let parent = Node::element(&mut dom, "div", vec![child]);
    reparent_subtree(&mut dom, parent);

    let (result, record) = apply_dom_mutation(
        &mut registry,
        &mut dom,
        &DomMutation::RemoveChild { parent, child },
        &no_forms,
    );

    assert_eq!(result.kind, DomMutationKind::RemoveChild);
    assert!(child_nodes(&dom, parent).is_empty());
    assert!(parent_ptr(&dom, child).is_none());
    assert!(registry.has_dirty_bits());
    let child_id = registry.node_id(child).expect("the child is registered");
    assert!(matches!(record, Some(ObserverRecord::ChildList { removed, .. }) if removed == [child_id]));
}

#[test]
fn dispatcher_applies_replace_child() {
    let mut registry = registry();
    let mut dom = Dom::new();
    let old_child = element(&mut dom, "old");
    let new_child = element(&mut dom, "new");
    let parent = Node::element(&mut dom, "div", vec![old_child]);
    reparent_subtree(&mut dom, parent);

    let (result, _) = apply_dom_mutation(
        &mut registry,
        &mut dom,
        &DomMutation::ReplaceChild { parent, new_child, old_child },
        &no_forms,
    );

    let children = child_nodes(&dom, parent);
    assert_eq!(result.kind, DomMutationKind::ReplaceChild);
    assert_eq!(children.len(), 1);
    assert_eq!(children[0], new_child);
    assert!(parent_ptr(&dom, old_child).is_none());
    assert!(registry.has_dirty_bits());
}

#[test]
fn dispatcher_applies_set_attribute_and_marks_dirty() {
    let mut registry = registry();
    let mut dom = Dom::new();
    let node = element(&mut dom, "div");

    let (result, record) = apply_dom_mutation(
        &mut registry,
        &mut dom,
        &DomMutation::SetAttribute { node, name: "data-state", value: "ready" },
        &no_forms,
    );

    assert_eq!(result.kind, DomMutationKind::SetAttribute);
    assert!(result.changed);
    assert_eq!(attribute(&dom, node, "data-state").as_deref(), Some("ready"));
    assert!(registry.has_dirty_bits());
    assert!(matches!(record, Some(ObserverRecord::Attribute { name, .. }) if name == "data-state"));
}

#[test]
fn dispatcher_applies_remove_attribute_and_marks_dirty() {
    let mut registry = registry();
    let mut dom = Dom::new();
    let mut attrs = Attributes::new();
    attrs.insert("data-state".to_string(), "ready".to_string());
    let node = Node::element_with_attributes(&mut dom, "div", attrs, Vec::new());

    let (result, _) = apply_dom_mutation(
        &mut registry,
        &mut dom,
        &DomMutation::RemoveAttribute { node, name: "data-state" },
        &no_forms,
    );

    assert_eq!(result.kind, DomMutationKind::RemoveAttribute);
    assert!(result.changed);
    assert!(attribute(&dom, node, "data-state").is_none());
    assert!(registry.has_dirty_bits());
}

#[test]
fn dispatcher_attribute_mutation_ignores_non_elements() {
    let mut registry = registry();
    let mut dom = Dom::new();
    let node = Node::text(&mut dom, "hello");

    let (result, record) = apply_dom_mutation(
        &mut registry,
        &mut dom,
        &DomMutation::SetAttribute { node, name: "data-state", value: "ready" },
        &no_forms,
    );

    assert_eq!(result.kind, DomMutationKind::SetAttribute);
    assert!(!result.changed);
    assert!(record.is_none());
    assert!(!registry.has_dirty_bits());
}

#[test]
fn text_and_child_lists_are_replaced_without_a_record() {
    let mut registry = registry();
    let mut dom = Dom::new();
    let p = element(&mut dom, "p");
    let (result, record) = apply_dom_mutation(
        &mut registry,
        &mut dom,
        &DomMutation::SetTextContent { node: p, text: "hi" },
        &no_forms,
    );
    assert_eq!(result.kind, DomMutationKind::SetTextContent);
    assert!(result.changed && record.is_none());
    assert_eq!(collect_text(&dom, p), "hi");
    let text = child_nodes(&dom, p)[0];
    assert_eq!(parent_ptr(&dom, text), Some(p));

    let (result, _) = apply_dom_mutation(
        &mut registry,
        &mut dom,
        &DomMutation::SetTextContent { node: text, text: "ho" },
        &no_forms,
    );
    assert!(result.changed);
    assert_eq!(collect_text(&dom, p), "ho");

    let document = Node::document(&mut dom, vec![p]);
    let (result, _) = apply_dom_mutation(
        &mut registry,
        &mut dom,
        &DomMutation::SetTextContent { node: document, text: "no" },
        &no_forms,
    );
    assert!(!result.changed);

    let b = element(&mut dom, "b");
    let (result, record) = apply_dom_mutation(
        &mut registry,
        &mut dom,
        &DomMutation::ReplaceChildren { node: p, children: vec![b] },
        &no_forms,
    );
    assert_eq!(result.kind, DomMutationKind::ReplaceChildren);
    assert!(result.changed && record.is_none());
    assert_eq!(parent_ptr(&dom, b), Some(p));
    let (result, _) = apply_dom_mutation(
        &mut registry,
        &mut dom,
        &DomMutation::ReplaceChildren { node: text, children: vec![] },
        &no_forms,
    );
    assert!(!result.changed);
}

#[test]
fn prepending_and_attaching_a_shadow_root_are_dispatched() {
    let mut registry = registry();
    let mut dom = Dom::new();
    let last = element(&mut dom, "b");
    let parent = Node::element(&mut dom, "x-host", vec![last]);
    reparent_subtree(&mut dom, parent);
    let child = element(&mut dom, "a");
    let (result, record) = apply_dom_mutation(
        &mut registry,
        &mut dom,
        &DomMutation::PrependChild { parent, child },
        &no_forms,
    );
    assert_eq!(result.kind, DomMutationKind::PrependChild);
    assert!(record.is_some());
    assert_eq!(child_nodes(&dom, parent), vec![child, last]);

    let root = SyntheticShadowTreeBackend.attach_shadow(&mut dom, parent, "open");
    let (result, record) = apply_dom_mutation(
        &mut registry,
        &mut dom,
        &DomMutation::AttachShadow { host: parent, shadow_root: root, mode: "open" },
        &no_forms,
    );
    assert_eq!(result.kind, DomMutationKind::AttachShadow);
    assert!(result.changed && record.is_none());
}

#[test]
fn insertion_is_a_move_and_removal_undoes_it() {
    let mut dom = Dom::new();
    let a = element(&mut dom, "a");
    let b = element(&mut dom, "b");
    let child = element(&mut dom, "i");
    append_child_ptr(&mut dom, a, child);
    assert_eq!(child_nodes(&dom, a), vec![child]);
    append_child_ptr(&mut dom, b, child);
    assert!(child_nodes(&dom, a).is_empty());
    assert_eq!(child_nodes(&dom, b), vec![child]);
    assert_eq!(parent_ptr(&dom, child), Some(b));
    remove_child_ptr(&mut dom, b, child);
    assert!(child_nodes(&dom, b).is_empty());
    assert_eq!(parent_ptr(&dom, child), None);
}

#[test]
fn an_absent_reference_node_means_the_end() {
    let mut dom = Dom::new();
    let x = element(&mut dom, "x");
    let y = element(&mut dom, "y");
    let z = element(&mut dom, "z");
    let parent = Node::element(&mut dom, "div", vec![x]);
    set_parent(&mut dom, x, parent);
    insert_before_ptr(&mut dom, parent, y, None);
    assert_eq!(child_nodes(&dom, parent), vec![x, y]);
    insert_before_ptr(&mut dom, parent, z, Some(parent));
    assert_eq!(child_nodes(&dom, parent), vec![x, y, z]);
    prepend_child_ptr(&mut dom, parent, z);
    assert_eq!(child_nodes(&dom, parent), vec![z, x, y]);
    assert_eq!(position_of(&child_nodes(&dom, parent), x), 1);
    assert_eq!(position_of(&child_nodes(&dom, parent), parent), 3);
}

#[test]
fn a_fragment_hands_over_its_children() {
    let mut dom = Dom::new();
    let x = element(&mut dom, "x");
    let y = element(&mut dom, "y");
    let fragment = Node::document_fragment(&mut dom, vec![x, y]);
    assert_eq!(insertion_nodes(&dom, fragment), vec![x, y]);
    assert_eq!(insertion_nodes(&dom, x), vec![x]);
    let old = element(&mut dom, "old");
    let parent = Node::element(&mut dom, "div", vec![old]);
    set_parent(&mut dom, old, parent);
    replace_child_ptr(&mut dom, parent, fragment, old);
    assert_eq!(child_nodes(&dom, parent), vec![x, y]);
    assert!(child_nodes(&dom, fragment).is_empty());
    assert_eq!(take_document_fragment_children(&mut dom, fragment), Some(vec![]));
    assert_eq!(take_document_fragment_children(&mut dom, parent), None);
}

#[test]
fn connectivity_follows_parents_across_shadow_roots() {
    let mut dom = Dom::new();
    let host = element(&mut dom, "x-host");
    let document = Node::document(&mut dom, vec![host]);
    reparent_subtree(&mut dom, document);
    let root = SyntheticShadowTreeBackend.attach_shadow(&mut dom, host, "open");
    let inner = element(&mut dom, "b");
    SyntheticShadowTreeBackend.append_shadow_child(&mut dom, root, inner);
    let stray = element(&mut dom, "i");
    assert!(is_connected_to(&dom, document, inner));
    assert!(is_connected_to(&dom, document, document));
    assert!(!is_connected_to(&dom, document, stray));
    assert!(contains_ptr(&dom, document, host));
    assert!(contains_ptr(&dom, document, document));
    assert!(!contains_ptr(&dom, document, inner));
}

#[test]
fn text_is_collected_in_order() {
    let mut dom = Dom::new();
    let one = Node::text(&mut dom, "one");
    let note = Node::comment(&mut dom, "note");
    let two = Node::text(&mut dom, "two");
    let b = Node::element(&mut dom, "b", vec![two]);
    let p = Node::element(&mut dom, "p", vec![one, note, b]);
    assert_eq!(collect_text(&dom, p), "onetwo");
    assert_eq!(collect_text(&dom, note), "note");
    set_text_content(&mut dom, p, "three");
    assert_eq!(collect_text(&dom, p), "three");
    assert_eq!(child_nodes(&dom, p).len(), 1);
}

#[test]
fn deep_clones_are_alike_and_apart() {
    let mut dom = Dom::new();
    let text = Node::text(&mut dom, "t");
    let mut attrs = Attributes::new();
    attrs.insert("id".to_string(), "a".to_string());
    let p = Node::element_with_attributes(&mut dom, "p", attrs, vec![text]);
    reparent_subtree(&mut dom, p);
    let copy = clone_node(&mut dom, p, true);
    assert_ne!(copy, p);
    assert_eq!(attribute(&dom, copy, "id").as_deref(), Some("a"));
    assert_eq!(collect_text(&dom, copy), "t");
    assert_ne!(child_nodes(&dom, copy)[0], text);
    assert_eq!(parent_ptr(&dom, child_nodes(&dom, copy)[0]), Some(copy));
    let bare = clone_node(&mut dom, p, false);
    assert!(child_nodes(&dom, bare).is_empty());
    assert_eq!(parent_ptr(&dom, bare), None);
}

#[test]
fn deep_clones_keep_template_contents() {
    let mut dom = Dom::new();
    let inner = element(&mut dom, "b");
    let template = element(&mut dom, "template");
    let content = Node::document_fragment(&mut dom, vec![inner]);
    aurora::dom::node::set_template_contents(&mut dom, template, Some(content));
    let copy = clone_node(&mut dom, template, true);
    let copied = template_contents(&dom, copy).expect("contents are copied");
    assert_ne!(copied, content);
    assert_eq!(child_nodes(&dom, copied).len(), 1);
}

// Custom elements.

fn definition(name: &str) -> CeDefinition {
    CeDefinition {
        name: name.to_string(),
        constructor: 1,
        connected: Some(2),
        disconnected: Some(3),
        adopted: Some(4),
        attribute_changed: Some(5),
        observed_attributes: vec!["title".to_string()],
        form_associated: false,
        form_associated_callback: None,
        form_disabled_callback: None,
        form_reset_callback: None,
        form_state_restore_callback: None,
        provisional: false,
    }
}

/// A document with a custom element that was upgraded.
fn with_custom(registry: &mut NodeRegistry, dom: &mut Dom) -> (NodePtr, NodePtr, u32) {
    let node = element(dom, "x-el");
    let document = Node::document(dom, Vec::new());
    registry.set_document(Some(document));
    let id = registry.register(node);
    let def = registry.custom_elements().define(definition("x-el"));
    registry.custom_elements().set_definition_for_element(id, def);
    registry.custom_elements().set_element_state(id, CeState::Custom);
    (document, node, id)
}

#[test]
fn custom_elements_are_told_of_connection_and_disconnection() {
    let mut registry = registry();
    let mut dom = Dom::new();
    let (document, node, id) = with_custom(&mut registry, &mut dom);
    apply_dom_mutation(
        &mut registry,
        &mut dom,
        &DomMutation::AppendChild { parent: document, child: node },
        &no_forms,
    );
    let told = registry.custom_elements().take_reactions(id).expect("a reaction is queued");
    assert_eq!(told.len(), 1);
    assert!(matches!(told[0], Reaction::Callback { callback: 2, native_connect: true, .. }));

    apply_dom_mutation(
        &mut registry,
        &mut dom,
        &DomMutation::RemoveChild { parent: document, child: node },
        &no_forms,
    );
    let told = registry.custom_elements().take_reactions(id).expect("a reaction is queued");
    assert_eq!(told.len(), 1);
    assert!(matches!(told[0], Reaction::Callback { callback: 3, .. }));
}

#[test]
fn walks_do_nothing_where_native_reactions_are_off() {
    let mut registry = NodeRegistry::new(false);
    let mut dom = Dom::new();
    let (document, node, id) = with_custom(&mut registry, &mut dom);
    append_child_ptr(&mut dom, document, node);
    let mut walk = LifecycleWalk::new(&registry, &vec![node], LifecyclePhase::Connected);
    assert!(walk.stack.is_empty());
    assert!(walk.next(&mut registry, &dom, document).is_none());
    assert!(registry.custom_elements().take_reactions(id).is_none());
}

#[test]
fn observed_attributes_are_told_with_both_values() {
    let mut registry = registry();
    let mut dom = Dom::new();
    let (_, node, id) = with_custom(&mut registry, &mut dom);
    for (name, value) in [("title", "a"), ("lang", "b"), ("title", "c")] {
        apply_dom_mutation(
            &mut registry,
            &mut dom,
            &DomMutation::SetAttribute { node, name, value },
            &no_forms,
        );
    }
    let told = registry.custom_elements().take_reactions(id).expect("reactions are queued");
    assert_eq!(told.len(), 2);
    match &told[1] {
        Reaction::AttributeChanged { callback, name, old_value, new_value } => {
            assert_eq!(*callback, 5);
            assert_eq!(name, "title");
            assert_eq!(old_value.as_deref(), Some("a"));
            assert_eq!(new_value.as_deref(), Some("c"));
        }
        _ => panic!("expected a changed attribute"),
    }
}

#[test]
fn adopted_elements_are_told_of_both_documents() {
    let mut registry = registry();
    let mut dom = Dom::new();
    let (_, node, id) = with_custom(&mut registry, &mut dom);
    let outer = Node::element(&mut dom, "div", vec![node]);
    enqueue_adopted_reactions(&mut registry, &dom, outer, 8, 9);
    let told = registry.custom_elements().take_reactions(id).expect("a reaction is queued");
    assert!(matches!(
        told[0],
        Reaction::Adopted { callback: 4, old_document: 8, new_document: 9 }
    ));
}

#[test]
fn upgrades_run_once_and_mark_the_element() {
    let mut registry = registry();
    let mut dom = Dom::new();
    let mut attrs = Attributes::new();
    attrs.insert("title".to_string(), "t".to_string());
    let node = Node::element_with_attributes(&mut dom, "x-el", attrs, Vec::new());
    assert!(!try_upgrade_element(&mut registry, &dom, node, true));
    let def = registry.custom_elements().define(definition("x-el"));
    assert!(try_upgrade_element(&mut registry, &dom, node, true));
    let id = registry.node_id(node).expect("the element is registered");
    let queued = registry.custom_elements().take_reactions(id).expect("the upgrade is queued");
    assert!(matches!(queued[0], Reaction::Upgrade { definition, is_connected: true } if definition == def));

    assert_eq!(begin_upgrade(&mut registry, &mut dom, id, def), Some(node));
    assert_eq!(registry.ce_registry().element_state(id), CeState::Precustomized);
    assert!(begin_construction(&mut registry, id, false));
    assert_eq!(registry.ce_registry().construction_stack_top(), Some(id));
    let after = finish_upgrade(&mut registry, &mut dom, node, id, def, true, Some(true));
    assert_eq!(registry.ce_registry().element_state(id), CeState::Custom);
    assert_eq!(registry.ce_registry().construction_stack_top(), None);
    assert!(matches!(dom.node(node), Node::Element(el) if el.custom_element_defined));
    assert_eq!(after.len(), 2);
    assert!(matches!(&after[0], Reaction::AttributeChanged { name, .. } if name == "title"));
    assert!(matches!(after[1], Reaction::Callback { callback: 2, native_connect: true, .. }));
    assert!(!try_upgrade_element(&mut registry, &dom, node, true));
    assert!(begin_upgrade(&mut registry, &mut dom, id + 1, def).is_none());
}

#[test]
fn failed_upgrades_leave_the_element_failed() {
    let mut registry = registry();
    let mut dom = Dom::new();
    let node = element(&mut dom, "x-el");
    let def = registry.custom_elements().define(definition("x-el"));
    let id = registry.register(node);
    assert_eq!(begin_upgrade(&mut registry, &mut dom, id, def), Some(node));
    registry.custom_elements().push_construction(99);
    assert!(begin_construction(&mut registry, id, false));
    let after = finish_upgrade(&mut registry, &mut dom, node, id, def, true, Some(false));
    assert_eq!(registry.ce_registry().construction_stack_top(), Some(99));
    assert!(after.is_empty());
    assert_eq!(registry.ce_registry().element_state(id), CeState::Failed);
    assert!(matches!(dom.node(node), Node::Element(el) if !el.custom_element_defined));
}

#[test]
fn elements_that_were_constructed_elsewhere_are_not_constructed_again() {
    let mut registry = registry();
    let mut dom = Dom::new();
    let node = element(&mut dom, "x-el");
    let def = registry.custom_elements().define(definition("x-el"));
    let id = registry.register(node);
    begin_upgrade(&mut registry, &mut dom, id, def);
    registry.custom_elements().push_construction(99);
    assert!(!begin_construction(&mut registry, id, true));
    let after = finish_upgrade(&mut registry, &mut dom, node, id, def, false, None);
    assert!(after.is_empty());
    assert_eq!(registry.ce_registry().construction_stack_top(), Some(99));
    assert_eq!(registry.ce_registry().element_state(id), CeState::Custom);
}

#[test]
fn reactions_become_invocations() {
    let call = Reaction::Callback { callback: 7, args: vec![1], native_connect: false };
    assert!(matches!(
        invocation_of(call, true),
        Invocation::Callback { callback: 7, args } if args == [1]
    ));
    let connect = Reaction::Callback { callback: 7, args: vec![], native_connect: true };
    assert!(matches!(invocation_of(connect, true), Invocation::Trampoline));
    let connect = Reaction::Callback { callback: 7, args: vec![], native_connect: true };
    assert!(matches!(invocation_of(connect, false), Invocation::Callback { callback: 7, .. }));
    assert!(matches!(
        invocation_of(Reaction::Upgrade { definition: 0, is_connected: false }, true),
        Invocation::Upgrade { definition: 0, is_connected: false }
    ));
    assert!(matches!(
        invocation_of(Reaction::DynamicConnected, true),
        Invocation::Controller { then_trampoline: true }
    ));
}

#[test]
fn draining_gives_up_after_a_hundred_rounds() {
    let mut registry = registry();
    let mut dom = Dom::new();
    let node = element(&mut dom, "x-el");
    let id = registry.register(node);
    let mut drain = Drain::new();
    let mut rounds = 0;
    registry.custom_elements().enqueue_dynamic_connected(id);
    while let Some(round) = drain.next_round(registry.custom_elements()) {
        rounds += 1;
        for turn in round {
            assert_eq!(reactions_for_turn(registry.custom_elements(), turn, true).len(), 1);
        }
        registry.custom_elements().enqueue_dynamic_connected(id);
    }
    assert_eq!(rounds, MAX_DRAIN_ROUNDS);
    assert!(drain.drained_any);
    let mut idle = Drain::new();
    let mut empty = NodeRegistry::new(true);
    assert!(idle.next_round(empty.custom_elements()).is_none());
    assert!(!idle.drained_any);
}

// Order among the nodes.

#[test]
fn a_mutation_that_puts_a_node_below_itself_is_told_apart() {
    let mut dom = Dom::new();
    let inner = Node::element(&mut dom, "i", vec![]);
    let outer = Node::element(&mut dom, "p", vec![inner]);
    let loose = Node::text(&mut dom, "x");
    let append = |parent, child| DomMutation::AppendChild { parent, child };
    assert!(is_held(&dom, outer, inner));
    assert!(is_held(&dom, outer, outer));
    assert!(!is_held(&dom, inner, outer));
    assert!(keeps_acyclic(&dom, &append(inner, loose)));
    assert!(!keeps_acyclic(&dom, &append(inner, outer)));
    assert!(!keeps_acyclic(&dom, &append(inner, inner)));
    assert!(!keeps_acyclic(&dom, &append(inner, dom.len())));
    let children = vec![loose, outer];
    assert!(!keeps_acyclic(&dom, &DomMutation::ReplaceChildren { node: inner, children }));
    let mut registry = registry();
    let (result, _) = apply_dom_mutation(&mut registry, &mut dom, &append(inner, loose), &no_forms);
    assert!(result.changed);
    assert!(is_acyclic(&dom));
    assert!(is_held(&dom, outer, loose));
}

// The registry.

#[test]
fn registration_is_one_to_one() {
    let mut registry = registry();
    let first = registry.register(10);
    let second = registry.register(11);
    assert_ne!(first, second);
    assert_eq!(registry.register(10), first);
    assert_eq!(registry.lookup(first), Some(10));
    assert_eq!(registry.node_id(11), Some(second));
    assert_eq!(registry.lookup(second + 1), None);
    assert_eq!(registry.node_ids(&vec![11, 10]), vec![second, first]);
    assert_eq!(registry.registered_nodes(), vec![10, 11]);
}

#[test]
fn removed_listeners_are_silent() {
    let mut registry = registry();
    registry.add_event_listener(1, "click".to_string(), 5);
    registry.add_event_listener(1, "click".to_string(), 6);
    registry.add_event_listener(1, "load".to_string(), 5);
    registry.add_event_listener(2, "click".to_string(), 7);
    assert_eq!(registry.get_listeners(1, "click"), vec![5, 6]);
    registry.remove_event_listener(1, "click", 5);
    assert_eq!(registry.get_listeners(1, "click"), vec![6]);
    assert_eq!(registry.get_listeners(1, "load"), vec![5]);
    assert_eq!(registry.get_listeners(2, "click"), vec![7]);
}

#[test]
fn dirty_bits_are_taken_once() {
    let mut registry = registry();
    assert!(!registry.has_dirty_bits());
    registry.mark_style_dirty();
    assert!(registry.has_dirty_bits());
    assert!(registry.take_needs_reflow());
    assert!(!registry.take_needs_reflow());
    registry.mark_layout_dirty();
    registry.clear_dirty_bits();
    assert!(!registry.has_dirty_bits());
    registry.schedule_snapshot_rebuild_reason(SnapshotRebuildReason::SyncOperationFailed);
    assert!(registry.take_snapshot_rebuild_reason().is_some());
    assert!(registry.take_snapshot_rebuild_reason().is_none());
    let first = registry.alloc_observer_id();
    assert_eq!(registry.alloc_observer_id(), first + 1);
}

#[test]
fn layout_is_only_needed_where_something_is_rendered_and_dirty() {
    let mut registry = registry();
    assert!(!registry.needs_layout(true));
    registry.mark_layout_dirty();
    assert!(!registry.needs_layout(false));
    assert!(registry.needs_layout(true));
}

// Forms.

/// A document with a form and a custom element that takes part in forms.
fn with_form(registry: &mut NodeRegistry, dom: &mut Dom) -> (NodePtr, NodePtr, NodePtr, u32) {
    let (document, node, id) = with_custom(registry, dom);
    registry.custom_elements().define(CeDefinition {
        form_associated: true,
        form_associated_callback: Some(6),
        form_disabled_callback: Some(7),
        form_reset_callback: Some(8),
        ..definition("x-el")
    });
    let form = element(dom, "form");
    append_child_ptr(dom, document, form);
    (document, form, node, id)
}

fn form_reactions(registry: &mut NodeRegistry, id: u32) -> Vec<(u32, FormReaction)> {
    let told = registry.custom_elements().take_reactions(id).unwrap_or_default();
    told.iter()
        .filter_map(|reaction| match reaction {
            Reaction::Form { callback, payload } => Some((*callback, *payload)),
            _ => None,
        })
        .collect()
}

/// The owner is the nearest form above, and `disabled` disables.
fn plain_forms(dom: &Dom, node: NodePtr, cause: &FormCause) -> Vec<FormStep> {
    let mut form = None;
    if !matches!(cause, FormCause::Left) {
        form = parent_ptr(dom, node);
        while let Some(above) = form {
            if matches!(dom.node(above), Node::Element(el) if el.tag_name == "form") {
                break;
            }
            form = parent_ptr(dom, above);
        }
    }
    let disabled = attribute(dom, node, "disabled").is_some();
    vec![FormStep::Owner { node, form }, FormStep::Disabled { node, disabled }]
}

#[test]
fn elements_are_told_of_their_forms_behind_all_else() {
    let mut registry = registry();
    let mut dom = Dom::new();
    let (_, form, node, id) = with_form(&mut registry, &mut dom);
    let append = DomMutation::AppendChild { parent: form, child: node };
    apply_dom_mutation(&mut registry, &mut dom, &append, &plain_forms);
    let form_id = registry.node_id(form).expect("the owner is registered");
    assert_eq!(registry.ce_registry().form_owner(id), Some(form_id));
    let told = registry.custom_elements().take_reactions(id).expect("reactions are queued");
    assert_eq!(told.len(), 2);
    assert!(matches!(told[0], Reaction::Callback { callback: 2, .. }));
    let associated = FormReaction::Associated { form: Some(form_id) };
    assert!(matches!(&told[1], Reaction::Form { callback: 6, payload } if *payload == associated));

    let remove = DomMutation::RemoveChild { parent: form, child: node };
    apply_dom_mutation(&mut registry, &mut dom, &remove, &plain_forms);
    assert_eq!(registry.ce_registry().form_owner(id), None);
    let told = form_reactions(&mut registry, id);
    assert_eq!(told, vec![(6, FormReaction::Associated { form: None })]);
}

#[test]
fn disabled_states_follow_attributes() {
    let mut registry = registry();
    let mut dom = Dom::new();
    let (_, form, node, id) = with_form(&mut registry, &mut dom);
    append_child_ptr(&mut dom, form, node);
    let set = DomMutation::SetAttribute { node, name: "disabled", value: "" };
    apply_dom_mutation(&mut registry, &mut dom, &set, &plain_forms);
    assert!(registry.ce_registry().form_disabled(id));
    let form_id = registry.node_id(form).expect("the owner is registered");
    let told = form_reactions(&mut registry, id);
    assert_eq!(
        told,
        vec![
            (6, FormReaction::Associated { form: Some(form_id) }),
            (7, FormReaction::Disabled { disabled: true }),
        ]
    );

    apply_dom_mutation(&mut registry, &mut dom, &set, &plain_forms);
    assert!(form_reactions(&mut registry, id).is_empty());

    let remove = DomMutation::RemoveAttribute { node, name: "disabled" };
    apply_dom_mutation(&mut registry, &mut dom, &remove, &plain_forms);
    assert!(!registry.ce_registry().form_disabled(id));
    let told = form_reactions(&mut registry, id);
    assert_eq!(told, vec![(7, FormReaction::Disabled { disabled: false })]);

    // Nothing was there to be removed, so nothing is asked.
    let refuse = |_: &Dom, _: NodePtr, _: &FormCause| -> Vec<FormStep> { panic!("not asked") };
    apply_dom_mutation(&mut registry, &mut dom, &remove, &refuse);
}

#[test]
fn only_what_takes_part_in_forms_is_told_of_them() {
    let mut registry = registry();
    let mut dom = Dom::new();
    let (_, form, node, id) = with_form(&mut registry, &mut dom);
    let plain = element(&mut dom, "div");
    let plain_id = registry.register(plain);
    let steps = vec![
        FormStep::Owner { node: plain, form: Some(form) },
        FormStep::Reset { node },
        FormStep::Disabled { node, disabled: false },
    ];
    apply_form_steps(&mut registry, &dom, &steps);
    assert_eq!(registry.ce_registry().form_owner(plain_id), None);
    assert!(registry.custom_elements().take_reactions(plain_id).is_none());
    assert_eq!(form_reactions(&mut registry, id), vec![(8, FormReaction::Reset)]);

    let asked = |_: &Dom, node: NodePtr, cause: &FormCause| match cause {
        FormCause::Attribute(name) if name == "form" => vec![FormStep::Reset { node }],
        _ => Vec::new(),
    };
    let steps = update_forms(&mut registry, &dom, node, FormCause::Attribute("form".into()), &asked);
    assert_eq!(steps, vec![FormStep::Reset { node }]);
    let m = DomMutation::SetAttribute { node, name: "form", value: "f" };
    let steps = follow_attribute(&mut registry, &dom, &m, &asked);
    assert_eq!(steps, vec![FormStep::Reset { node }]);
    assert_eq!(form_reactions(&mut registry, id).len(), 2);
}

#[test]
fn the_form_source_is_asked_about_every_connected_element() {
    let mut registry = registry();
    let mut dom = Dom::new();
    let inner = element(&mut dom, "b");
    let outer = Node::element(&mut dom, "div", vec![inner]);
    let document = Node::document(&mut dom, vec![outer]);
    reparent_subtree(&mut dom, document);
    registry.set_document(Some(document));
    let asked = std::cell::RefCell::new(Vec::new());
    let forms = |_: &Dom, node: NodePtr, cause: &FormCause| {
        asked.borrow_mut().push((node, matches!(cause, FormCause::Left)));
        Vec::new()
    };
    let mut walk = LifecycleWalk::new(&registry, &vec![outer], LifecyclePhase::Disconnected);
    assert_eq!(walk.run(&mut registry, &dom, document, &forms), vec![outer, inner]);
    let mut walk = LifecycleWalk::new(&registry, &vec![outer], LifecyclePhase::Connected);
    assert_eq!(walk.run(&mut registry, &dom, document, &forms), vec![outer, inner]);
    let expected = vec![(outer, true), (inner, true), (outer, false), (inner, false)];
    assert_eq!(asked.into_inner(), expected);
}

// What the renderer is to do.

#[test]
fn the_renderer_is_told_what_has_changed() {
    let mut registry = registry();
    let mut dom = Dom::new();
    let old = element(&mut dom, "i");
    let parent = Node::element(&mut dom, "div", vec![old]);
    let new = element(&mut dom, "b");
    let m = DomMutation::ReplaceChild { parent, new_child: new, old_child: old };
    let (begun, _) = begin_mutation(&mut registry, &dom, &m);
    let change = change_tree(&mut registry, &mut dom, &m);
    assert_eq!(clears_first(&dom, &m, change.changed), None);
    let steps = render_steps(&dom, &m, change.changed, &begun.inserted);
    assert!(matches!(steps[0], RenderStep::Remove(node) if node == old));
    assert!(matches!(&steps[1], RenderStep::Insert { parent: p, nodes } if *p == parent && *nodes == [new]));
    assert_eq!(steps.len(), 2);
    assert!(render_steps(&dom, &m, false, &begun.inserted).is_empty());

    let m = DomMutation::SetTextContent { node: parent, text: "x" };
    assert_eq!(clears_first(&dom, &m, true), Some(parent));
    assert_eq!(clears_first(&dom, &m, false), None);
    let steps = render_steps(&dom, &m, true, &Vec::new());
    assert!(matches!(steps[..], [RenderStep::ReplaceChildren(node)] if node == parent));

    let text = Node::text(&mut dom, "a");
    let m = DomMutation::SetTextContent { node: text, text: "x" };
    assert_eq!(clears_first(&dom, &m, true), None);
    let steps = render_steps(&dom, &m, true, &Vec::new());
    assert!(matches!(&steps[..], [RenderStep::SetText { node, text: t }] if *node == text && t == "x"));

    let m = DomMutation::RemoveAttribute { node: new, name: "id" };
    let steps = render_steps(&dom, &m, true, &Vec::new());
    assert!(matches!(&steps[..], [RenderStep::RemoveAttribute { node, name }] if *node == new && name == "id"));
}

#[test]
fn the_renderer_is_up_to_date_when_every_step_was_taken() {
    assert!(is_synced(true, &vec![true, true], 2));
    assert!(is_synced(true, &Vec::new(), 0));
    assert!(!is_synced(false, &vec![true], 1));
    assert!(!is_synced(true, &vec![false], 2));
    assert!(!is_synced(true, &vec![true], 2));
}

// What outlives its parent.

#[test]
fn what_outlives_its_parent_has_none() {
    let mut registry = registry();
    let mut dom = Dom::new();
    let leaf = element(&mut dom, "b");
    let middle = Node::element(&mut dom, "p", vec![leaf]);
    let top = Node::element(&mut dom, "div", vec![middle]);
    let document = Node::document(&mut dom, vec![top]);
    reparent_subtree(&mut dom, document);
    registry.set_document(Some(document));
    registry.register(leaf);
    registry.release_unheld(&mut dom, &Vec::new());
    assert_eq!(parent_ptr(&dom, leaf), Some(middle));

    let m = DomMutation::SetTextContent { node: top, text: "" };
    apply_dom_mutation(&mut registry, &mut dom, &m, &no_forms);
    registry.release_unheld(&mut dom, &vec![middle]);
    assert_eq!(parent_ptr(&dom, leaf), Some(middle));
    registry.release_unheld(&mut dom, &Vec::new());
    assert_eq!(parent_ptr(&dom, leaf), None);
    assert_eq!(parent_ptr(&dom, top), Some(document));
}

#[test]
fn prepended_fragments_keep_the_order_of_their_children() {
    let mut registry = registry();
    let mut dom = Dom::new();
    let last = element(&mut dom, "i");
    let parent = Node::element(&mut dom, "div", vec![last]);
    let (a, b) = (element(&mut dom, "a"), element(&mut dom, "b"));
    let child = Node::document_fragment(&mut dom, vec![a, b]);
    reparent_subtree(&mut dom, child);
    apply_dom_mutation(
        &mut registry,
        &mut dom,
        &DomMutation::PrependChild { parent, child },
        &no_forms,
    );
    assert_eq!(child_nodes(&dom, parent), vec![a, b, last]);
    assert!(child_nodes(&dom, child).is_empty());
}
