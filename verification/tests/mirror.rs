//! The mirror of the document in the renderer, driven with a real renderer.

use std::collections::BTreeMap;

use aurora::blitz_document::document::{BlitzDocument, MAX_CONSECUTIVE_PANICS, MirrorMutationFailure,
    MirrorMutationResult, MirrorOp, PaintResult};
use aurora::blitz_document::insertion::{next_render_mapped_sibling, InsertSync, SyncStep};
use aurora::blitz_document::lookup::{blitz_is_descendant_or_self, hit_test_anchor, query_can_see};
use aurora::blitz_document::maps::{child_nodes_for_blitz, remove_blitz_subtree_mapping,
    remove_subtree_mapping, remove_subtree_mappings_for_children};
use aurora::blitz_document::names::{attr_qual_name_from_str, attr_qual_name_to_string,
    element_qual_name_from_str, namespace_for_children, same_name, HTML_NS, MATHML_NS, QualName,
    SVG_NS, XLINK_NS, XMLNS_NS};
use aurora::blitz_document::plan::{Draft, RenderOp, RenderRef};
use aurora::blitz_document::render::{RenderAttribute, RenderData, RenderElement, RenderNode,
    RenderTree};
use aurora::blitz_document::summary::{collect_node_counts, debug_summary};
use aurora::blitz_document::sync::{node_namespace, MirrorPlan};
use aurora::blitz_document::validate::{blitz_attrs_to_map, mapped_ids};
use aurora::blitz_document::walks::{is_ascent_finite, is_countable, is_descent_finite};
use aurora::dom::attributes::Attributes;
use aurora::dom::node::{child_nodes, clear_parent, remove_attribute, reparent_subtree,
    set_attribute, set_children, set_content, set_parent, set_shadow_root, Dom, Node, NodePtr};
use aurora::js::dispatch::{begin_mutation, change_tree, clears_first, enter_nodes, finish_mutation,
    is_synced, render_steps, DomMutation, DomMutationKind, DomMutationResult, RenderStep};
use aurora::js::forms::no_forms;
use aurora::js::query::find_by_id;
use aurora::js::registry::{NodeRegistry, ObserverRecord, SnapshotRebuildReason};
use blitz_dom::{BaseDocument, DocumentConfig, LocalName, Namespace, NodeData, Prefix};

/// A renderer, and the mirror that is kept of the document in it.
struct Rendered {
    inner: BaseDocument,
    mirror: BlitzDocument,
}

fn renderer_name(name: &QualName) -> blitz_dom::QualName {
    blitz_dom::QualName::new(
        name.prefix.as_deref().map(Prefix::from),
        Namespace::from(name.ns.as_str()),
        LocalName::from(name.local.as_str()),
    )
}

fn library_name(name: &blitz_dom::QualName) -> QualName {
    QualName {
        prefix: name.prefix.as_ref().map(|prefix| prefix.to_string()),
        ns: name.ns.to_string(),
        local: name.local.to_string(),
    }
}

fn library_element(element: &blitz_dom::ElementData) -> RenderElement {
    RenderElement {
        name: library_name(&element.name),
        attrs: element
            .attrs
            .iter()
            .map(|attr| RenderAttribute {
                name: library_name(&attr.name),
                value: attr.value.clone(),
            })
            .collect(),
    }
}

fn library_node(node: &blitz_dom::Node) -> RenderNode {
    RenderNode {
        parent: node.parent,
        children: node.children.clone(),
        data: match &node.data {
            NodeData::Document => RenderData::Document,
            NodeData::Element(element) => RenderData::Element(library_element(element)),
            NodeData::AnonymousBlock(element) => {
                RenderData::AnonymousBlock(library_element(element))
            }
            NodeData::Text(text) => RenderData::Text(text.content.clone()),
            NodeData::Comment => RenderData::Comment,
        },
    }
}

fn snapshot(inner: &BaseDocument) -> RenderTree {
    let len = inner.tree().iter().map(|(id, _)| id + 1).max().unwrap_or(0);
    RenderTree {
        nodes: (0..len).map(|id| inner.get_node(id).map(library_node)).collect(),
    }
}

fn resolved(node: &RenderRef, ids: &[usize]) -> usize {
    match node {
        RenderRef::Existing(id) => *id,
        RenderRef::New(i) => ids[*i],
    }
}

fn run_ops(inner: &mut BaseDocument, ops: &[RenderOp]) -> Vec<usize> {
    let mut ids = Vec::new();
    let mut mutator = inner.mutate();
    for op in ops {
        match op {
            RenderOp::CreateText(text) => ids.push(mutator.create_text_node(text)),
            RenderOp::CreateComment => ids.push(mutator.create_comment_node()),
            RenderOp::CreateElement { name, attrs } => {
                let attrs = attrs
                    .iter()
                    .map(|attr| blitz_dom::Attribute {
                        name: renderer_name(&attr.name),
                        value: attr.value.clone(),
                    })
                    .collect();
                ids.push(mutator.create_element(renderer_name(name), attrs));
            }
            RenderOp::AppendChildren { parent, children } => {
                let children: Vec<usize> = children.iter().map(|c| resolved(c, &ids)).collect();
                mutator.append_children(resolved(parent, &ids), &children);
            }
            RenderOp::InsertBefore { anchor, nodes } => {
                let nodes: Vec<usize> = nodes.iter().map(|n| resolved(n, &ids)).collect();
                mutator.insert_nodes_before(*anchor, &nodes);
            }
            RenderOp::ReplaceWith { node, nodes } => {
                let nodes: Vec<usize> = nodes.iter().map(|n| resolved(n, &ids)).collect();
                mutator.replace_node_with(*node, &nodes);
            }
            RenderOp::RemoveNode(node) => mutator.remove_node(*node),
            RenderOp::DropAllChildren(node) => mutator.remove_and_drop_all_children(*node),
            RenderOp::SetAttribute { node, name, value } => {
                mutator.set_attribute(*node, renderer_name(name), value)
            }
            RenderOp::ClearAttribute { node, name } => {
                mutator.clear_attribute(*node, renderer_name(name))
            }
            RenderOp::SetText { node, text } => mutator.set_node_text(*node, text),
        }
    }
    ids
}

impl Rendered {
    fn of(dom: &mut Dom, root: NodePtr) -> Rendered {
        let mut inner = BaseDocument::new(DocumentConfig {
            base_url: Some("https://example.com/".to_string()),
            ..Default::default()
        });
        let (mut mirror, draft) = BlitzDocument::plan_from_dom(dom, root);
        let ids = run_ops(&mut inner, &draft.ops);
        mirror.commit(&draft.created, &ids);
        Rendered { inner, mirror }
    }

    fn tree(&self) -> RenderTree {
        snapshot(&self.inner)
    }

    /// Runs a plan; whether the mirror was brought up to date.
    fn run(&mut self, dom: &mut Dom, plan: Option<MirrorPlan>) -> bool {
        let Some(plan) = plan else {
            return false;
        };
        let ids = run_ops(&mut self.inner, &plan.ops);
        let tree = self.tree();
        self.mirror.finish_sync(dom, &plan, &ids, true, Some(&tree))
    }

    fn append_child(&mut self, dom: &mut Dom, parent: NodePtr, child: NodePtr) -> bool {
        let tree = self.tree();
        let plan = self.mirror.sync_append_child(dom, &tree, parent, child);
        self.run(dom, plan)
    }

    fn insert_before(
        &mut self,
        dom: &mut Dom,
        parent: NodePtr,
        child: NodePtr,
        before: Option<NodePtr>,
    ) -> bool {
        let tree = self.tree();
        let plan = self.mirror.sync_insert_before(dom, &tree, parent, child, before);
        self.run(dom, plan)
    }

    fn replace_child(
        &mut self,
        dom: &mut Dom,
        parent: NodePtr,
        new_child: NodePtr,
        old_child: NodePtr,
    ) -> bool {
        let tree = self.tree();
        let plan = self.mirror.sync_replace_child(dom, &tree, parent, new_child, old_child);
        self.run(dom, plan)
    }

    fn remove_child(&mut self, dom: &mut Dom, child: NodePtr) -> bool {
        let plan = self.mirror.sync_remove_child(dom, child);
        self.run(dom, plan)
    }

    fn set_attribute(&mut self, dom: &mut Dom, node: NodePtr, name: &str, value: &str) -> bool {
        let plan = self.mirror.sync_set_attribute(dom, node, name, value);
        self.run(dom, plan)
    }

    fn remove_attribute(&mut self, dom: &mut Dom, node: NodePtr, name: &str) -> bool {
        let plan = self.mirror.sync_remove_attribute(dom, node, name);
        self.run(dom, plan)
    }

    fn text_node(&mut self, dom: &mut Dom, node: NodePtr, text: &str) -> bool {
        let plan = self.mirror.sync_text_node(dom, node, text);
        self.run(dom, plan)
    }

    fn all_attributes(&mut self, dom: &mut Dom, node: NodePtr) -> bool {
        let tree = self.tree();
        let plan = self.mirror.sync_all_attributes(dom, &tree, node);
        self.run(dom, plan)
    }

    fn attach_shadow_root(&mut self, dom: &mut Dom, host: NodePtr, root: NodePtr) -> bool {
        let tree = self.tree();
        let plan = self.mirror.sync_attach_shadow_root(dom, &tree, host, root, "open");
        self.run(dom, plan)
    }

    fn clear_children(&mut self, dom: &mut Dom, parent: NodePtr) -> bool {
        let plan = self.mirror.sync_clear_children(dom, parent);
        self.run(dom, plan)
    }

    fn replace_children(&mut self, dom: &mut Dom, parent: NodePtr) -> bool {
        let tree = self.tree();
        let plan = self.mirror.sync_replace_children(dom, &tree, parent);
        self.run(dom, plan)
    }

    fn assert_intact(&self, dom: &mut Dom) {
        let tree = self.tree();
        assert_eq!(self.mirror.validate_mirror_integrity(dom, &tree).map_err(|e| e.message), Ok(()));
    }

    fn attributes(&self, node: NodePtr) -> Attributes {
        let id = self.mirror.blitz_node_id_for_dom(node).expect("node should be mapped");
        let tree = self.tree();
        let rendered = tree.get_node(id).expect("node should be rendered");
        blitz_attrs_to_map(rendered.data.downcast_element().expect("expected an element"))
    }
}

fn attr(name: &str, value: &str) -> Attributes {
    let mut attrs = Attributes::new();
    attrs.insert(name.to_string(), value.to_string());
    attrs
}

fn body_from_document(dom: &Dom, document: NodePtr) -> NodePtr {
    let html = child_nodes(dom, document)[0];
    child_nodes(dom, html)[1]
}

fn document_with_body_children(dom: &mut Dom, children: Vec<NodePtr>) -> NodePtr {
    let head = Node::element(dom, "head", Vec::new());
    let body = Node::element(dom, "body", children);
    let html = Node::element(dom, "html", vec![head, body]);
    let document = Node::document(dom, vec![html]);
    reparent_subtree(dom, document);
    document
}

fn paragraph(dom: &mut Dom, text: &str) -> NodePtr {
    let text = Node::text(dom, text);
    Node::element(dom, "p", vec![text])
}

fn document_with_paragraph(dom: &mut Dom) -> NodePtr {
    let p = paragraph(dom, "x");
    document_with_body_children(dom, vec![p])
}

#[test]
fn debug_mirror_integrity_accepts_initial_dom_snapshot() {
    let mut dom = Dom::new();
    let hello = Node::text(&mut dom, "hello");
    let p = Node::element_with_attributes(&mut dom, "p", attr("data-role", "greeting"), vec![hello]);
    let document = document_with_body_children(&mut dom, vec![p]);

    let rendered = Rendered::of(&mut dom, document);

    rendered.assert_intact(&mut dom);
}

#[test]
fn debug_mirror_integrity_accepts_synced_dom_mutations() {
    let mut dom = Dom::new();
    let text = Node::text(&mut dom, "old");
    let item = Node::element_with_attributes(&mut dom, "p", attr("id", "item"), vec![text]);
    let document = document_with_body_children(&mut dom, vec![item]);
    let body = body_from_document(&dom, document);
    let mut rendered = Rendered::of(&mut dom, document);

    let new = Node::text(&mut dom, "new");
    let appended = Node::element(&mut dom, "span", vec![new]);
    set_children(&mut dom, body, vec![item, appended]);
    set_parent(&mut dom, appended, body);
    assert!(rendered.append_child(&mut dom, body, appended));
    rendered.assert_intact(&mut dom);

    set_attribute(&mut dom, item, "data-state", "ready");
    assert!(rendered.set_attribute(&mut dom, item, "data-state", "ready"));
    rendered.assert_intact(&mut dom);

    set_content(&mut dom, text, "updated");
    assert!(rendered.text_node(&mut dom, text, "updated"));
    rendered.assert_intact(&mut dom);

    set_children(&mut dom, body, vec![item]);
    clear_parent(&mut dom, appended);
    assert!(rendered.remove_child(&mut dom, appended));
    rendered.assert_intact(&mut dom);
}

#[test]
fn sync_all_attributes_diffs_add_update_and_remove() {
    let mut dom = Dom::new();
    let mut starting = Attributes::new();
    starting.insert("rel".to_string(), "stylesheet".to_string());
    starting.insert("href".to_string(), "/a.css".to_string());
    starting.insert("data-stale".to_string(), "1".to_string());
    let link = Node::element_with_attributes(&mut dom, "link", starting, Vec::new());
    let document = document_with_body_children(&mut dom, vec![link]);
    let mut rendered = Rendered::of(&mut dom, document);

    remove_attribute(&mut dom, link, "data-stale");
    set_attribute(&mut dom, link, "href", "/b.css");
    set_attribute(&mut dom, link, "data-fresh", "1");
    assert!(rendered.all_attributes(&mut dom, link));
    rendered.assert_intact(&mut dom);

    let blitz_attrs = rendered.attributes(link);
    assert_eq!(blitz_attrs.get("rel").map(String::as_str), Some("stylesheet"));
    assert_eq!(blitz_attrs.get("href").map(String::as_str), Some("/b.css"));
    assert_eq!(blitz_attrs.get("data-fresh").map(String::as_str), Some("1"));
    assert!(!blitz_attrs.contains_key("data-stale"));
}

/// Hangs a shadow root with one element below a host.
fn shadow_with(dom: &mut Dom, host: NodePtr, tag: &str) -> NodePtr {
    let text = Node::text(dom, "shadow");
    let inner = Node::element(dom, tag, vec![text]);
    let shadow_root = Node::document_fragment(dom, vec![inner]);
    set_shadow_root(dom, host, Some(shadow_root));
    set_parent(dom, shadow_root, host);
    reparent_subtree(dom, shadow_root);
    shadow_root
}

#[test]
fn debug_mirror_integrity_accepts_synced_shadow_root() {
    let mut dom = Dom::new();
    let host = Node::element(&mut dom, "x-host", Vec::new());
    let document = document_with_body_children(&mut dom, vec![host]);
    let mut rendered = Rendered::of(&mut dom, document);

    let shadow_root = shadow_with(&mut dom, host, "span");

    assert!(rendered.attach_shadow_root(&mut dom, host, shadow_root));
    rendered.assert_intact(&mut dom);
    assert!(rendered.mirror.blitz_node_id_for_dom(shadow_root).is_some());
}

#[test]
fn sync_shadow_root_replaces_previously_mirrored_light_children() {
    let mut dom = Dom::new();
    let text = Node::text(&mut dom, "light");
    let light = Node::element(&mut dom, "span", vec![text]);
    let host = Node::element(&mut dom, "x-host", vec![light]);
    let document = document_with_body_children(&mut dom, vec![host]);
    let mut rendered = Rendered::of(&mut dom, document);

    assert!(rendered.mirror.blitz_node_id_for_dom(light).is_some());
    let shadow_root = shadow_with(&mut dom, host, "strong");

    assert!(rendered.attach_shadow_root(&mut dom, host, shadow_root));
    rendered.assert_intact(&mut dom);
    assert!(rendered.mirror.blitz_node_id_for_dom(light).is_none());
    assert!(rendered.mirror.blitz_node_id_for_dom(shadow_root).is_some());
}

#[test]
fn initial_snapshot_uses_synthetic_container_for_existing_shadow_root() {
    let mut dom = Dom::new();
    let host = Node::element(&mut dom, "x-host", Vec::new());
    shadow_with(&mut dom, host, "span");
    let document = document_with_body_children(&mut dom, vec![host]);

    let rendered = Rendered::of(&mut dom, document);
    rendered.assert_intact(&mut dom);
}

#[test]
fn debug_mirror_integrity_reports_corrupt_reverse_mapping() {
    let mut dom = Dom::new();
    let document = document_with_paragraph(&mut dom);
    let mut rendered = Rendered::of(&mut dom, document);

    rendered.mirror.blitz_to_legacy.remove(&0);

    let tree = rendered.tree();
    let error = rendered.mirror.validate_mirror_integrity(&mut dom, &tree).unwrap_err();
    assert_eq!(error.operation, "manual validation");
    assert_eq!(error.blitz_node, Some(0));
    assert!(error.message.contains("legacy_to_blitz entry has no reverse"));
}

#[test]
fn integrity_check_names_what_is_wrong_with_a_node() {
    let mut dom = Dom::new();
    let text = Node::text(&mut dom, "hello");
    let p = Node::element_with_attributes(&mut dom, "p", attr("id", "one"), vec![text]);
    let document = document_with_body_children(&mut dom, vec![p]);
    let mut rendered = Rendered::of(&mut dom, document);

    set_content(&mut dom, text, "bye");
    let tree = rendered.tree();
    let error = rendered.mirror.validate_mirror_integrity(&mut dom, &tree).unwrap_err();
    assert_eq!(error.legacy_node, Some(text));
    assert!(error.message.contains("text"), "{}", error.message);
    assert!(rendered.text_node(&mut dom, text, "bye"));
    rendered.assert_intact(&mut dom);

    set_attribute(&mut dom, p, "id", "two");
    let tree = rendered.tree();
    let error = rendered.mirror.validate_mirror_integrity(&mut dom, &tree).unwrap_err();
    assert_eq!(error.legacy_node, Some(p));
    assert_eq!(error.message, "attribute mismatch for \"id\"");
}

#[test]
fn mirror_mutation_trace_records_monotonic_operation_ids() {
    let mut dom = Dom::new();
    let text = Node::text(&mut dom, "old");
    let item = Node::element_with_attributes(&mut dom, "p", attr("id", "item"), vec![text]);
    let document = document_with_body_children(&mut dom, vec![item]);
    let mut rendered = Rendered::of(&mut dom, document);

    set_attribute(&mut dom, item, "data-state", "ready");
    assert!(rendered.set_attribute(&mut dom, item, "data-state", "ready"));
    let first = *rendered.mirror.last_mirror_mutation_trace().expect("trace should be recorded");
    assert_eq!(first.op_id, 1);
    assert_eq!(first.op_name, "sync_set_attribute");
    assert_eq!(first.result, MirrorMutationResult::Succeeded);
    assert_eq!(first.failure, None);
    assert_eq!(first.legacy_node, Some(item));
    assert!(first.blitz_node.is_some());

    remove_attribute(&mut dom, item, "data-state");
    assert!(rendered.remove_attribute(&mut dom, item, "data-state"));
    let second = rendered.mirror.last_mirror_mutation_trace().expect("trace should be recorded");
    assert_eq!(second.op_id, first.op_id + 1);
    assert_eq!(second.op_name, "sync_remove_attribute");
    assert_eq!(second.result, MirrorMutationResult::Succeeded);
    assert_eq!(second.failure, None);
}

#[test]
fn mirror_mutation_trace_records_missing_mapping_failures() {
    let mut dom = Dom::new();
    let document = document_with_paragraph(&mut dom);
    let mut rendered = Rendered::of(&mut dom, document);
    let orphan = Node::element(&mut dom, "orphan", Vec::new());
    let child = Node::element(&mut dom, "child", Vec::new());

    assert!(!rendered.append_child(&mut dom, orphan, child));
    let trace = rendered.mirror.last_mirror_mutation_trace().expect("failed sync should be traced");
    assert_eq!(trace.op_id, 1);
    assert_eq!(trace.op_name, "sync_append_child");
    assert_eq!(trace.result, MirrorMutationResult::Failed);
    assert_eq!(trace.failure, Some(MirrorMutationFailure::MissingMapping));
    assert_eq!(trace.parent, Some(orphan));
    assert_eq!(trace.child, Some(child));
    assert_eq!(trace.blitz_node, None);
}

#[test]
fn a_plan_that_did_not_run_is_recorded_as_failed() {
    let mut dom = Dom::new();
    let document = document_with_paragraph(&mut dom);
    let body = body_from_document(&dom, document);
    let mut rendered = Rendered::of(&mut dom, document);

    let plan = rendered.mirror.sync_set_attribute(&dom, body, "class", "a").expect("body is mapped");
    assert!(!rendered.mirror.finish_sync(&mut dom, &plan, &Vec::new(), false, None));
    let trace = rendered.mirror.last_mirror_mutation_trace().expect("trace should be recorded");
    assert_eq!(trace.result, MirrorMutationResult::Failed);
    assert_eq!(trace.failure, Some(MirrorMutationFailure::SyncOperationFailed));
}

#[test]
fn a_mirror_that_is_found_broken_is_recorded_as_failed() {
    let mut dom = Dom::new();
    let document = document_with_paragraph(&mut dom);
    let body = body_from_document(&dom, document);
    let mut rendered = Rendered::of(&mut dom, document);
    rendered.mirror.blitz_to_legacy.remove(&0);

    set_attribute(&mut dom, body, "class", "a");
    rendered.set_attribute(&mut dom, body, "class", "a");
    let trace = rendered.mirror.last_mirror_mutation_trace().expect("trace should be recorded");
    assert_eq!(trace.result, MirrorMutationResult::Failed);
    assert_eq!(trace.failure, Some(MirrorMutationFailure::DebugValidationFailed));
}

#[test]
fn paint_failure_state_distinguishes_recoverable_from_unhealthy() {
    let mut dom = Dom::new();
    let document = document_with_paragraph(&mut dom);
    let mut blitz_doc = Rendered::of(&mut dom, document).mirror;

    assert_eq!(blitz_doc.finish_paint_attempt(false), PaintResult::FailedRecoverable);

    for _ in 1..MAX_CONSECUTIVE_PANICS {
        let _ = blitz_doc.finish_paint_attempt(false);
    }
    assert_eq!(blitz_doc.paint_failure_result(), PaintResult::FailedUnhealthy);
    assert!(!blitz_doc.healthy);

    assert_eq!(blitz_doc.finish_paint_attempt(true), PaintResult::PaintedCurrentFrame);
    assert!(blitz_doc.healthy);
    assert_eq!(blitz_doc.consecutive_panics, 0);
}

#[test]
fn five_failed_attempts_in_a_row_trip_the_breaker() {
    let mut document = BlitzDocument::new();
    for failures in 1..=4 {
        assert!(!document.finish_attempt(false));
        assert!(document.healthy);
        assert_eq!(document.consecutive_panics, failures);
    }
    assert!(document.finish_attempt(true));
    assert_eq!(document.consecutive_panics, 0);
    for _ in 0..5 {
        assert!(document.healthy);
        assert!(!document.finish_attempt(false));
    }
    assert!(!document.healthy);
}

#[test]
fn html_elements_stay_html_outside_foreign_content() {
    assert_eq!(element_qual_name_from_str("a", HTML_NS).ns, HTML_NS);
    assert_eq!(element_qual_name_from_str("div", HTML_NS).ns, HTML_NS);
}

#[test]
fn svg_and_mathml_roots_enter_foreign_namespaces() {
    assert_eq!(element_qual_name_from_str("svg", HTML_NS).ns, SVG_NS);
    assert_eq!(element_qual_name_from_str("circle", SVG_NS).ns, SVG_NS);
    assert_eq!(element_qual_name_from_str("math", HTML_NS).ns, MATHML_NS);
    assert_eq!(element_qual_name_from_str("mi", MATHML_NS).ns, MATHML_NS);
}

#[test]
fn foreign_object_children_return_to_html_namespace() {
    let foreign = element_qual_name_from_str("foreignObject", SVG_NS);
    let child_ns = namespace_for_children("foreignObject", &foreign.ns);
    assert_eq!(foreign.ns, SVG_NS);
    assert_eq!(element_qual_name_from_str("div", &child_ns).ns, HTML_NS);
}

#[test]
fn prefixed_foreign_attrs_get_real_namespaces() {
    let xlink = attr_qual_name_from_str("xlink:href");
    assert_eq!(xlink.prefix.as_deref(), Some("xlink"));
    assert_eq!(xlink.ns, XLINK_NS);
    assert_eq!(xlink.local, "href");

    let xmlns = attr_qual_name_from_str("xmlns:xlink");
    assert_eq!(xmlns.prefix.as_deref(), Some("xmlns"));
    assert_eq!(xmlns.ns, XMLNS_NS);
    assert_eq!(xmlns.local, "xlink");

    let plain = attr_qual_name_from_str("data:x");
    assert_eq!(plain.prefix, None);
    assert_eq!(plain.ns, "");
    assert_eq!(plain.local, "data:x");
    assert!(same_name(&plain, &plain.clone()));
    assert!(!same_name(&plain, &xlink));
}

#[test]
fn namespaces_are_those_of_the_renderer() {
    let html = blitz_dom::QualName::new(None, Namespace::from(HTML_NS), LocalName::from("p"));
    let again = renderer_name(&library_name(&html));
    assert_eq!(html, again);
}

#[test]
fn debug_attr_names_round_trip_prefixed_names() {
    assert_eq!(attr_qual_name_to_string(&attr_qual_name_from_str("xlink:href")), "xlink:href");
    assert_eq!(attr_qual_name_to_string(&attr_qual_name_from_str("xml:lang")), "xml:lang");
    assert_eq!(attr_qual_name_to_string(&attr_qual_name_from_str("class")), "class");
}

#[test]
fn remove_blitz_subtree_mapping_removes_dom_subtree_recursively() {
    let mut dom = Dom::new();
    let removed_text = Node::text(&mut dom, "old");
    let removed = Node::element(&mut dom, "p", vec![removed_text]);
    let new = Node::text(&mut dom, "new");
    let retained = Node::element(&mut dom, "span", vec![new]);

    let mut legacy_to_blitz = BTreeMap::new();
    legacy_to_blitz.insert(removed, 2);
    legacy_to_blitz.insert(removed_text, 3);
    legacy_to_blitz.insert(retained, 4);

    let mut blitz_to_legacy = BTreeMap::new();
    blitz_to_legacy.insert(2, removed);
    blitz_to_legacy.insert(3, removed_text);
    blitz_to_legacy.insert(4, retained);

    remove_blitz_subtree_mapping(&mut dom, 2, &mut legacy_to_blitz, &mut blitz_to_legacy);

    assert!(!legacy_to_blitz.contains_key(&removed));
    assert!(!legacy_to_blitz.contains_key(&removed_text));
    assert!(!blitz_to_legacy.contains_key(&2));
    assert!(!blitz_to_legacy.contains_key(&3));
    assert_eq!(legacy_to_blitz.get(&retained), Some(&4));
    assert!(blitz_to_legacy.contains_key(&4));
}

#[test]
fn forgetting_children_keeps_the_node_itself() {
    let mut dom = Dom::new();
    let text = Node::text(&mut dom, "a");
    let p = Node::element(&mut dom, "p", vec![text]);
    let mut to_blitz = BTreeMap::from([(p, 1), (text, 2)]);
    let mut to_legacy = BTreeMap::from([(1, p), (2, text)]);
    remove_subtree_mappings_for_children(&mut dom, p, &mut to_blitz, &mut to_legacy);
    assert_eq!(to_blitz, BTreeMap::from([(p, 1)]));
    assert_eq!(to_legacy, BTreeMap::from([(1, p)]));
    remove_subtree_mapping(&mut dom, p, &mut to_blitz, &mut to_legacy);
    assert!(to_blitz.is_empty());
    assert!(to_legacy.is_empty());
}

#[test]
fn the_renderer_is_shown_the_composed_tree() {
    let mut dom = Dom::new();
    let light = paragraph(&mut dom, "light");
    let host = Node::element(&mut dom, "x-host", vec![light]);
    assert_eq!(child_nodes_for_blitz(&mut dom, host), vec![light]);
    let root = shadow_with(&mut dom, host, "slot");
    assert_eq!(child_nodes_for_blitz(&mut dom, host), vec![root]);
    assert_eq!(child_nodes_for_blitz(&mut dom, root), vec![light]);
}

#[test]
fn replacing_and_clearing_children_keeps_the_mirror_intact() {
    let mut dom = Dom::new();
    let first = paragraph(&mut dom, "first");
    let second = paragraph(&mut dom, "second");
    let document = document_with_body_children(&mut dom, vec![first]);
    let body = body_from_document(&dom, document);
    let mut rendered = Rendered::of(&mut dom, document);

    set_children(&mut dom, body, vec![second]);
    set_parent(&mut dom, second, body);
    clear_parent(&mut dom, first);
    assert!(rendered.replace_child(&mut dom, body, second, first));
    rendered.assert_intact(&mut dom);
    assert!(rendered.mirror.blitz_node_id_for_dom(second).is_some());

    set_children(&mut dom, body, vec![first, second]);
    set_parent(&mut dom, first, body);
    assert!(rendered.insert_before(&mut dom, body, first, Some(second)));
    rendered.assert_intact(&mut dom);
    assert_eq!(
        next_render_mapped_sibling(&dom, &rendered.mirror, body, first),
        Some(second),
    );
    assert_eq!(next_render_mapped_sibling(&dom, &rendered.mirror, body, second), None);

    assert!(rendered.clear_children(&mut dom, body));
    assert!(rendered.mirror.blitz_node_id_for_dom(first).is_none());
    assert!(rendered.mirror.blitz_node_id_for_dom(second).is_none());
    assert!(rendered.replace_children(&mut dom, body));
    rendered.assert_intact(&mut dom);
    let id = rendered.mirror.blitz_node_id_for_dom(first).expect("first is shown again");
    assert_eq!(rendered.mirror.dom_node_for_blitz_id(id), Some(first));
    assert_eq!(
        mapped_ids(&vec![first, document], &rendered.mirror.legacy_to_blitz),
        vec![id, 0],
    );
}

#[test]
fn comments_are_rendered_without_their_text() {
    let mut dom = Dom::new();
    let comment = Node::comment(&mut dom, "note");
    let document = document_with_body_children(&mut dom, vec![comment]);
    let rendered = Rendered::of(&mut dom, document);
    rendered.assert_intact(&mut dom);
    let id = rendered.mirror.blitz_node_id_for_dom(comment).expect("comments are mapped");
    let tree = rendered.tree();
    assert!(matches!(tree.get_node(id).map(|node| &node.data), Some(RenderData::Comment)));
}

#[test]
fn foreign_elements_are_created_in_their_namespace() {
    let mut dom = Dom::new();
    let inner = Node::element(&mut dom, "div", Vec::new());
    let foreign = Node::element(&mut dom, "foreignObject", vec![inner]);
    let svg = Node::element(&mut dom, "svg", vec![foreign]);
    let document = document_with_body_children(&mut dom, vec![svg]);
    let rendered = Rendered::of(&mut dom, document);
    let tree = rendered.tree();
    let id = |node| rendered.mirror.blitz_node_id_for_dom(node).expect("node is mapped");
    assert_eq!(node_namespace(&tree, id(svg)), SVG_NS);
    assert_eq!(node_namespace(&tree, id(foreign)), SVG_NS);
    assert_eq!(node_namespace(&tree, id(inner)), HTML_NS);
    assert_eq!(node_namespace(&tree, id(document)), HTML_NS);
}

#[test]
fn queries_go_through_the_mirror() {
    let mut dom = Dom::new();
    let text = Node::text(&mut dom, "link");
    let link = Node::element_with_attributes(&mut dom, "a", attr("href", "/next"), vec![text]);
    let outside = paragraph(&mut dom, "outside");
    let section = Node::element(&mut dom, "section", vec![link]);
    let document = document_with_body_children(&mut dom, vec![section, outside]);
    let rendered = Rendered::of(&mut dom, document);
    let mirror = &rendered.mirror;
    let tree = rendered.tree();
    let id = |node| mirror.blitz_node_id_for_dom(node).expect("node is mapped");

    assert!(blitz_is_descendant_or_self(&tree, id(text), id(section)));
    assert!(blitz_is_descendant_or_self(&tree, id(section), id(section)));
    assert!(!blitz_is_descendant_or_self(&tree, id(outside), id(section)));

    assert_eq!(hit_test_anchor(&tree, Some(id(text))), Some("/next".to_string()));
    assert_eq!(hit_test_anchor(&tree, Some(id(outside))), None);
    assert_eq!(hit_test_anchor(&tree, None), None);

    let matches = vec![id(link), id(outside)];
    assert_eq!(
        mirror.query_selector_all_dom(&dom, &tree, &matches, document),
        Some(vec![link, outside]),
    );
    assert_eq!(mirror.query_selector_all_dom(&dom, &tree, &matches, section), Some(vec![link]));
    assert_eq!(mirror.query_selector_dom(&dom, &tree, &matches, section), Some(link));
    assert_eq!(mirror.query_selector_dom(&dom, &tree, &Vec::new(), section), None);
    let stray = Node::element(&mut dom, "p", Vec::new());
    assert_eq!(mirror.query_selector_all_dom(&dom, &tree, &matches, stray), None);

    assert_eq!(mirror.get_element_by_id_dom(&dom, Some(id(link))), Some(link));
    assert_eq!(mirror.get_element_by_id_dom(&dom, None), None);
    assert_eq!(mirror.selector_matches_dom(link, &matches), Some(true));
    assert_eq!(mirror.selector_matches_dom(section, &matches), Some(false));
    assert_eq!(mirror.selector_matches_dom(stray, &matches), None);
    assert_eq!(mirror.hit_test_dom_node(&tree, Some(id(text))), Some(text));
    assert_eq!(mirror.closest_dom(&dom, &tree, text, &matches), Some(Some(link)));
    assert_eq!(mirror.closest_dom(&dom, &tree, section, &matches), Some(None));
    assert_eq!(mirror.closest_dom(&dom, &tree, stray, &matches), None);
    assert_eq!(mirror.collect_by_tag_dom(&dom, &tree, "a", document), Some(vec![link]));
    assert_eq!(mirror.collect_by_tag_dom(&dom, &tree, "A", section), Some(vec![link]));
    assert_eq!(mirror.collect_by_tag_dom(&dom, &tree, "a", stray), None);
}

#[test]
fn queries_do_not_see_into_shadow_trees() {
    let mut dom = Dom::new();
    let host = Node::element(&mut dom, "x-host", Vec::new());
    let root = shadow_with(&mut dom, host, "span");
    let inner = child_nodes(&dom, root)[0];
    let document = document_with_body_children(&mut dom, vec![host]);
    assert!(!query_can_see(&dom, document, inner));
    assert!(query_can_see(&dom, root, inner));
    assert!(query_can_see(&dom, document, host));
}

#[test]
fn a_summary_counts_the_rendered_nodes() {
    let mut dom = Dom::new();
    let document = document_with_paragraph(&mut dom);
    let rendered = Rendered::of(&mut dom, document);
    let tree = rendered.tree();
    let counts = collect_node_counts(&tree, 0);
    assert_eq!((counts.total, counts.elements, counts.text), (6, 4, 1));
    let summary = debug_summary(&tree, 0, 1);
    assert!(summary.contains('6'), "{summary}");
}

#[test]
fn operations_name_what_they_are_about() {
    let mut dom = Dom::new();
    let text = Node::text(&mut dom, "x");
    let p = Node::element(&mut dom, "p", vec![text]);
    set_parent(&mut dom, text, p);
    let op = MirrorOp::for_node("sync_text_node", &dom, text);
    assert_eq!((op.legacy_node, op.parent, op.child), (Some(text), Some(p), None));
    assert!(!op.shadow_root);
    let op = MirrorOp::for_parent("sync_clear_children", &dom, p);
    assert_eq!((op.legacy_node, op.parent, op.child), (Some(p), Some(p), None));

    let mut document = BlitzDocument::new();
    document.record_mirror_mutation(&op, Some(3), MirrorMutationResult::Succeeded, None);
    assert_eq!(document.last_mirror_mutation_trace().map(|t| (t.op_id, t.blitz_node)), Some((1, Some(3))));
    document.record_mirror_failure(&op, MirrorMutationFailure::SyncOperationFailed);
    let trace = document.last_mirror_mutation_trace().expect("trace should be recorded");
    assert_eq!((trace.op_id, trace.blitz_node), (2, None));
}

#[test]
fn a_new_draft_is_empty() {
    let mut draft = Draft::new();
    assert!(draft.ops.is_empty() && draft.created.is_empty() && draft.pending.is_empty());
    draft.push(RenderOp::CreateComment);
    assert_eq!(draft.ops.len(), 1);
}

// The dispatcher, with a renderer attached.

fn sync_inserted(rendered: &mut Rendered, dom: &mut Dom, parent: NodePtr, nodes: &[NodePtr]) -> bool {
    let mut sync = InsertSync::new(&rendered.mirror, parent, nodes.to_vec());
    loop {
        let done = match sync.next(dom, &rendered.mirror) {
            SyncStep::Remove(node) => rendered.remove_child(dom, node),
            SyncStep::Insert(node, before) => rendered.insert_before(dom, parent, node, before),
            SyncStep::Done => return true,
        };
        if !done {
            return false;
        }
    }
}

fn sync_removed(rendered: &mut Rendered, dom: &mut Dom, node: NodePtr) -> bool {
    rendered.mirror.blitz_node_id_for_dom(node).is_none() || rendered.remove_child(dom, node)
}

fn take(rendered: &mut Rendered, dom: &mut Dom, step: &RenderStep) -> bool {
    match step {
        RenderStep::Insert { parent, nodes } => sync_inserted(rendered, dom, *parent, nodes),
        RenderStep::Remove(node) => sync_removed(rendered, dom, *node),
        RenderStep::SetAttribute { node, name, value } => {
            rendered.set_attribute(dom, *node, name, value)
        }
        RenderStep::RemoveAttribute { node, name } => rendered.remove_attribute(dom, *node, name),
        RenderStep::SetText { node, text } => rendered.text_node(dom, *node, text),
        RenderStep::ReplaceChildren(node) => rendered.replace_children(dom, *node),
        RenderStep::AttachShadow { host, shadow_root, .. } => {
            rendered.attach_shadow_root(dom, *host, *shadow_root)
        }
    }
}

fn dispatch(
    registry: &mut NodeRegistry,
    dom: &mut Dom,
    rendered: &mut Rendered,
    m: &DomMutation,
) -> (DomMutationResult, Option<ObserverRecord>) {
    let (begun, mut leaving) = begin_mutation(registry, dom, m);
    if let Some(document) = registry.document() {
        leaving.run(registry, dom, document, &no_forms);
    }
    let change = change_tree(registry, dom, m);
    let cleared = match clears_first(dom, m, change.changed) {
        Some(node) => rendered.clear_children(dom, node),
        None => true,
    };
    let mut entering = enter_nodes(registry, dom, m, &begun.inserted);
    if let Some(document) = registry.document() {
        entering.run(registry, dom, document, &no_forms);
    }
    let steps = render_steps(dom, m, change.changed, &begun.inserted);
    let mut outcomes = Vec::new();
    for step in &steps {
        let taken = take(rendered, dom, step);
        outcomes.push(taken);
        if !taken {
            break;
        }
    }
    let synced = is_synced(cleared, &outcomes, steps.len());
    finish_mutation(registry, m, begun, change.changed, synced)
}

fn id_element(dom: &mut Dom, tag: &str, id: &str, children: Vec<NodePtr>) -> NodePtr {
    Node::element_with_attributes(dom, tag, attr("id", id), children)
}

#[test]
fn dispatcher_append_child_keeps_render_mirror_valid() {
    let mut registry = NodeRegistry::new(true);
    let mut dom = Dom::new();
    let made = id_element(&mut dom, "div", "parent", Vec::new());
    let document = document_with_body_children(&mut dom, vec![made]);
    let parent = find_by_id(&dom, document, "parent").expect("parent should exist");
    let mut rendered = Rendered::of(&mut dom, document);
    let text = Node::text(&mut dom, "new");
    let child = Node::element(&mut dom, "span", vec![text]);

    let (result, record) = dispatch(
        &mut registry,
        &mut dom,
        &mut rendered,
        &DomMutation::AppendChild { parent, child },
    );

    assert!(result.render_synced);
    assert!(record.is_some());
    assert_eq!(registry.take_snapshot_rebuild_reason(), None);
    let trace = rendered
        .mirror
        .last_mirror_mutation_trace()
        .expect("append should record a mirror trace");
    assert_eq!(trace.op_name, "sync_insert_before");
    assert_eq!(trace.result, MirrorMutationResult::Succeeded);
    rendered.assert_intact(&mut dom);
}

#[test]
fn dispatcher_append_child_moves_render_mirror_between_parents() {
    let mut registry = NodeRegistry::new(true);
    let mut dom = Dom::new();
    let text = Node::text(&mut dom, "move");
    let m = id_element(&mut dom, "span", "m", vec![text]);
    let a = id_element(&mut dom, "div", "a", vec![m]);
    let b = id_element(&mut dom, "div", "b", Vec::new());
    let document = document_with_body_children(&mut dom, vec![a, b]);
    let from = find_by_id(&dom, document, "a").expect("source parent should exist");
    let to = find_by_id(&dom, document, "b").expect("target parent should exist");
    let moved = find_by_id(&dom, document, "m").expect("moved child should exist");
    let mut rendered = Rendered::of(&mut dom, document);

    let (result, _) = dispatch(
        &mut registry,
        &mut dom,
        &mut rendered,
        &DomMutation::AppendChild { parent: to, child: moved },
    );

    assert!(result.render_synced);
    assert!(child_nodes(&dom, from).is_empty());
    assert_eq!(child_nodes(&dom, to)[0], moved);
    assert_eq!(registry.take_snapshot_rebuild_reason(), None);
    rendered.assert_intact(&mut dom);
}

#[test]
fn dispatcher_schedules_rebuild_when_render_sync_fails() {
    let mut registry = NodeRegistry::new(true);
    let mut dom = Dom::new();
    let div = Node::element(&mut dom, "div", Vec::new());
    let document = document_with_body_children(&mut dom, vec![div]);
    let mut rendered = Rendered::of(&mut dom, document);

    let node = Node::element(&mut dom, "div", Vec::new());
    let (result, record) = dispatch(
        &mut registry,
        &mut dom,
        &mut rendered,
        &DomMutation::SetAttribute { node, name: "data-state", value: "ready" },
    );

    assert_eq!(result.kind, DomMutationKind::SetAttribute);
    assert!(!result.render_synced);
    assert!(record.is_none());
    assert_eq!(
        registry.take_snapshot_rebuild_reason(),
        Some(SnapshotRebuildReason::SyncOperationFailed)
    );
}

#[test]
fn mutations_keep_the_mirror_intact() {
    let mut registry = NodeRegistry::new(true);
    let mut dom = Dom::new();
    let text = Node::text(&mut dom, "one");
    let p = Node::element(&mut dom, "p", vec![text]);
    let document = document_with_body_children(&mut dom, vec![p]);
    let body = body_from_document(&dom, document);
    registry.set_document(Some(document));
    let mut rendered = Rendered::of(&mut dom, document);
    let span = Node::element(&mut dom, "span", Vec::new());
    let em = Node::element(&mut dom, "em", Vec::new());
    let left = Node::element(&mut dom, "i", Vec::new());
    let right = Node::element(&mut dom, "b", Vec::new());
    let fragment = Node::document_fragment(&mut dom, vec![left, right]);
    let steps = [
        DomMutation::PrependChild { parent: body, child: span },
        DomMutation::InsertBefore { parent: body, new_child: fragment, ref_child: Some(p) },
        DomMutation::ReplaceChild { parent: body, new_child: em, old_child: span },
        DomMutation::SetTextContent { node: text, text: "two" },
        DomMutation::SetTextContent { node: em, text: "three" },
        DomMutation::SetAttribute { node: em, name: "title", value: "t" },
        DomMutation::RemoveAttribute { node: em, name: "title" },
        DomMutation::RemoveChild { parent: body, child: right },
    ];
    for m in &steps {
        let (result, _) = dispatch(&mut registry, &mut dom, &mut rendered, m);
        assert!(result.render_synced && result.changed);
        rendered.assert_intact(&mut dom);
    }
    assert_eq!(child_nodes(&dom, body), vec![em, left, p]);
    let root = shadow_with(&mut dom, left, "u");
    let (result, _) = dispatch(
        &mut registry,
        &mut dom,
        &mut rendered,
        &DomMutation::AttachShadow { host: left, shadow_root: root, mode: "open" },
    );
    assert!(result.render_synced);
    rendered.assert_intact(&mut dom);
}

#[test]
fn replaced_children_are_rendered_anew() {
    let mut registry = NodeRegistry::new(true);
    let mut dom = Dom::new();
    let p = paragraph(&mut dom, "one");
    let kept = Node::element(&mut dom, "b", Vec::new());
    let document = document_with_body_children(&mut dom, vec![p, kept]);
    let body = body_from_document(&dom, document);
    let mut rendered = Rendered::of(&mut dom, document);
    let (result, record) = dispatch(
        &mut registry,
        &mut dom,
        &mut rendered,
        &DomMutation::ReplaceChildren { node: body, children: vec![kept, p] },
    );
    assert!(result.render_synced && result.changed);
    assert!(record.is_none());
    rendered.assert_intact(&mut dom);
    assert_eq!(child_nodes(&dom, body), vec![kept, p]);
}

#[test]
fn walks_through_circles_of_rendered_nodes_are_refused() {
    let node = |parent, children| {
        Some(RenderNode { parent, children, data: RenderData::Document })
    };
    let tree = RenderTree { nodes: vec![node(None, vec![1]), node(Some(0), vec![])] };
    assert!(is_ascent_finite(&tree, 1));
    assert!(is_ascent_finite(&tree, 7));
    assert!(is_descent_finite(&tree, 0));
    assert!(is_countable(&tree, 0));
    assert!(!is_countable(&tree, 7));
    let tree = RenderTree { nodes: vec![node(None, vec![1]), None] };
    assert!(is_descent_finite(&tree, 0));
    assert!(!is_countable(&tree, 0));
    let tree = RenderTree { nodes: vec![node(Some(1), vec![1]), node(Some(0), vec![0])] };
    assert!(!is_ascent_finite(&tree, 0));
    assert!(!is_descent_finite(&tree, 0));
    assert!(!is_countable(&tree, 0));
}
