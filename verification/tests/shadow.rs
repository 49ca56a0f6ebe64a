//! Shadow roots, slots and the composed tree.

use aurora::dom::attributes::Attributes;
use aurora::dom::node::{child_nodes, parent_ptr, set_assigned_nodes, set_children, set_parent,
    shadow_root, Dom, Node, NodePtr};
use aurora::dom::shadow::{ShadowTreeBackend, SyntheticShadowTreeBackend};

fn backend() -> SyntheticShadowTreeBackend {
    SyntheticShadowTreeBackend
}

fn tag(dom: &Dom, node: NodePtr) -> String {
    match dom.node(node) {
        Node::Element(el) => el.tag_name.clone(),
        _ => panic!("expected an element"),
    }
}

#[test]
fn attach_shadow_links_root_to_host_and_is_idempotent() {
    let mut dom = Dom::new();
    let host = Node::element(&mut dom, "my-el", Vec::new());

    let root = backend().attach_shadow(&mut dom, host, "open");

    assert!(backend().is_shadow_root(&dom, root));
    assert_eq!(shadow_root(&dom, host), Some(root));
    assert_eq!(parent_ptr(&dom, root), Some(host));

    let root_again = backend().attach_shadow(&mut dom, host, "open");
    assert_eq!(root, root_again);
}

#[test]
fn append_shadow_child_populates_root_and_parents_child() {
    let mut dom = Dom::new();
    let host = Node::element(&mut dom, "my-el", Vec::new());
    let root = backend().attach_shadow(&mut dom, host, "open");
    let child = Node::element(&mut dom, "span", Vec::new());

    backend().append_shadow_child(&mut dom, root, child);

    assert_eq!(child_nodes(&dom, root), vec![child]);
    assert_eq!(parent_ptr(&dom, child), Some(root));
    assert!(backend().is_in_shadow_tree(&dom, child));
}

#[test]
fn host_for_shadow_root_resolves_only_for_roots() {
    let mut dom = Dom::new();
    let host = Node::element(&mut dom, "my-el", Vec::new());
    let root = backend().attach_shadow(&mut dom, host, "open");
    assert_eq!(backend().host_for_shadow_root(&dom, root), Some(host));

    let stray = Node::document_fragment(&mut dom, Vec::new());
    assert!(backend().host_for_shadow_root(&dom, stray).is_none());
    assert!(!backend().is_shadow_root(&dom, stray));
    assert!(!backend().is_in_shadow_tree(&dom, host));
}

#[test]
fn nearest_shadow_root_walks_up_to_enclosing_root() {
    let mut dom = Dom::new();
    let host = Node::element(&mut dom, "my-el", Vec::new());
    let root = backend().attach_shadow(&mut dom, host, "open");
    let mid = Node::element(&mut dom, "div", Vec::new());
    let leaf = Node::element(&mut dom, "span", Vec::new());
    backend().append_shadow_child(&mut dom, root, mid);
    set_children(&mut dom, mid, vec![leaf]);
    set_parent(&mut dom, leaf, mid);

    assert_eq!(backend().nearest_shadow_root(&dom, leaf), Some(root));
    assert_eq!(backend().nearest_shadow_root(&dom, root), Some(root));
    assert!(backend().nearest_shadow_root(&dom, host).is_none());
}

#[test]
fn composed_children_returns_shadow_root_as_sole_child_of_host() {
    let mut dom = Dom::new();
    let light = Node::element(&mut dom, "p", Vec::new());
    let host = Node::element(&mut dom, "my-el", vec![light]);
    let root = backend().attach_shadow(&mut dom, host, "open");

    let composed = backend().composed_children(&dom, host);
    assert_eq!(composed, vec![root]);

    let b = Node::element(&mut dom, "b", Vec::new());
    let plain = Node::element(&mut dom, "div", vec![b]);
    assert_eq!(backend().composed_children(&dom, plain).len(), 1);
}

#[test]
fn composed_children_uses_fallback_content_for_empty_slot() {
    let mut dom = Dom::new();
    let host = Node::element(&mut dom, "my-el", Vec::new());
    let root = backend().attach_shadow(&mut dom, host, "open");
    let text = Node::text(&mut dom, "fallback");
    let span = Node::element(&mut dom, "span", vec![text]);
    let slot = Node::element(&mut dom, "slot", vec![span]);
    backend().append_shadow_child(&mut dom, root, slot);

    let composed = backend().composed_children(&dom, root);
    assert_eq!(composed.len(), 1);
    assert_eq!(tag(&dom, composed[0]), "span");
    assert_eq!(child_nodes(&dom, composed[0]).len(), 1);
}

fn element_with_attr(dom: &mut Dom, tag: &str, attr: &str, value: &str) -> NodePtr {
    let mut attrs = Attributes::new();
    attrs.insert(attr.to_string(), value.to_string());
    Node::element_with_attributes(dom, tag, attrs, Vec::new())
}

#[test]
fn distribute_slots_routes_named_and_default_slottables() {
    let mut dom = Dom::new();
    let default_slot = Node::element(&mut dom, "slot", Vec::new());
    let footer_slot = element_with_attr(&mut dom, "slot", "name", "footer");

    let plain = Node::element(&mut dom, "p", Vec::new());
    let footer_child = element_with_attr(&mut dom, "span", "slot", "footer");
    let text = Node::text(&mut dom, "hi");
    let host = Node::element(&mut dom, "my-el", vec![plain, footer_child, text]);
    let root = backend().attach_shadow(&mut dom, host, "open");
    backend().append_shadow_child(&mut dom, root, default_slot);
    backend().append_shadow_child(&mut dom, root, footer_slot);

    backend().distribute_slots(&mut dom, host);

    assert_eq!(backend().assigned_nodes(&dom, default_slot), vec![plain, text]);
    assert_eq!(backend().assigned_nodes(&dom, footer_slot), vec![footer_child]);

    // Distributing again changes nothing.
    backend().distribute_slots(&mut dom, host);
    assert_eq!(backend().assigned_nodes(&dom, default_slot), vec![plain, text]);
    assert_eq!(backend().assigned_nodes(&dom, footer_slot), vec![footer_child]);
}

#[test]
fn distribute_slots_treats_empty_slot_attr_as_default() {
    let mut dom = Dom::new();
    let default_slot = Node::element(&mut dom, "slot", Vec::new());
    let child = element_with_attr(&mut dom, "span", "slot", "");
    let host = Node::element(&mut dom, "my-el", vec![child]);
    let root = backend().attach_shadow(&mut dom, host, "open");
    backend().append_shadow_child(&mut dom, root, default_slot);

    backend().distribute_slots(&mut dom, host);

    assert_eq!(backend().assigned_nodes(&dom, default_slot), vec![child]);
}

#[test]
fn composed_children_flattens_nested_empty_slots() {
    let mut dom = Dom::new();
    let host = Node::element(&mut dom, "my-el", Vec::new());
    let root = backend().attach_shadow(&mut dom, host, "open");
    let text = Node::text(&mut dom, "nested-fallback");
    let nested = Node::element(&mut dom, "slot", vec![text]);
    let outer = Node::element(&mut dom, "slot", vec![nested]);
    backend().append_shadow_child(&mut dom, root, outer);

    let composed = backend().composed_children(&dom, root);
    assert_eq!(composed.len(), 1);
    match dom.node(composed[0]) {
        Node::Text(text) => assert_eq!(text.content, "nested-fallback"),
        _ => panic!("expected nested fallback text"),
    }
}

#[test]
fn adopted_fragments_become_shadow_roots() {
    let mut dom = Dom::new();
    let host = Node::element(&mut dom, "my-el", Vec::new());
    let child = Node::element(&mut dom, "b", Vec::new());
    let fragment = Node::document_fragment(&mut dom, vec![child]);
    let holder = Node::element(&mut dom, "div", vec![fragment]);

    assert!(backend().adopt_shadow_root(&mut dom, host, fragment));
    assert_eq!(shadow_root(&dom, host), Some(fragment));
    assert_eq!(parent_ptr(&dom, fragment), Some(host));
    assert_eq!(child_nodes(&dom, holder), Vec::<NodePtr>::new());

    let plain = Node::element(&mut dom, "p", Vec::new());
    assert!(!backend().adopt_shadow_root(&mut dom, host, plain));
}

#[test]
fn first_slot_of_a_name_takes_its_children() {
    let mut dom = Dom::new();
    let host = Node::element(&mut dom, "my-el", Vec::new());
    let root = backend().attach_shadow(&mut dom, host, "open");
    let first = element_with_attr(&mut dom, "slot", "name", "a");
    let second = element_with_attr(&mut dom, "slot", "name", "a");
    let plain = Node::element(&mut dom, "slot", Vec::new());
    for slot in [first, second, plain] {
        backend().append_shadow_child(&mut dom, root, slot);
    }
    let one = element_with_attr(&mut dom, "i", "slot", "a");
    let two = Node::element(&mut dom, "b", Vec::new());
    let three = element_with_attr(&mut dom, "u", "slot", "a");
    let lost = element_with_attr(&mut dom, "p", "slot", "z");
    set_children(&mut dom, host, vec![one, two, three, lost]);
    set_assigned_nodes(&mut dom, second, vec![lost]);
    for _ in 0..2 {
        backend().distribute_slots(&mut dom, host);
        assert_eq!(backend().assigned_nodes(&dom, first), vec![one, three]);
        assert_eq!(backend().assigned_nodes(&dom, second), Vec::<NodePtr>::new());
        assert_eq!(backend().assigned_nodes(&dom, plain), vec![two]);
        assert_eq!(child_nodes(&dom, host), vec![one, two, three, lost]);
    }
}
