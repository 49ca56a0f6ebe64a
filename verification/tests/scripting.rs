//! What scripts see of the document and ask of the engine.

use aurora::css::ast::ElementData;
use aurora::dom::attributes::Attributes;
use aurora::dom::node::{child_nodes, clear_parent, parent_ptr, reparent_subtree, set_attribute,
    set_children, set_parent, shadow_root, Dom, Node, NodePtr};
use aurora::dom::shadow::{ShadowTreeBackend, SyntheticShadowTreeBackend};
use aurora::fetch::http::HttpResponse;
use aurora::js::base64::{base64_decode, base64_encode};
use aurora::js::custom_elements::{CeDefinition, CeRegistry, DefineError, FormReaction, Reaction};
use aurora::js::dispatch::{apply_dom_mutation, DomMutation};
use aurora::js::forms::no_forms;
use aurora::js::network::{fetch_reply, reply_with, request_parts, NetworkTasks};
use aurora::js::nodes::{attr_entries, child_element_count, class_selector, closest, create_element,
    data_attr_to_dataset_key, element_children, fields_of, find_parent_for, first_by_tag,
    first_element_child, has_attributes, inner_html_target, last_element_child, node_name,
    node_type, sibling_for_node, slot_assigned_nodes, upgrade_candidates};
use aurora::js::placing::{append_children, insert_nodes_at_position, insert_relative_to_self,
    prepend_children, reflect_attribute, replace_children, replace_with, tracking_for, Placement,
    Tracking};
use aurora::js::query::{build_ancestor_chain, build_sibling_list, collect_by_class, collect_by_tag,
    descendants, element_data_list, element_data_of, find_by_id, find_parent, is_direct_child,
    is_retained_subtree_root, query_all, query_first, selector_matches, sibling_index_of};
use aurora::js::registry::NodeRegistry;
use aurora::js::scripts::{console_line, exception_message, flag_enabled, lifecycle_event_script,
    trace_filter_script};
use aurora::js::storage::Storage;
use aurora::js::timers::{MAX_READY_TIMERS, MILLISECOND, WindowCapture};
use aurora::js::wrapper::{adopt_shadow_root, attach_internals, attach_shadow, describe_node,
    flags_valid, is_svg_tag, layout_metric, shadow_mode, Hook, InternalsError, Metric, Prototype};
use aurora::js_engine::EngineKind;

fn attrs(pairs: &[(&str, &str)]) -> Attributes {
    let mut attrs = Attributes::new();
    for (name, value) in pairs {
        attrs.insert(name.to_string(), value.to_string());
    }
    attrs
}

fn element(dom: &mut Dom, tag: &str, pairs: &[(&str, &str)], kids: Vec<NodePtr>) -> NodePtr {
    Node::element_with_attributes(dom, tag, attrs(pairs), kids)
}

/// `<document><ul id=list><li class="a b">1</li>text<li class=b/></ul></document>`
fn list_document(dom: &mut Dom) -> (NodePtr, NodePtr, NodePtr, NodePtr, NodePtr) {
    let one = Node::text(dom, "1");
    let first = element(dom, "li", &[("class", "a b")], vec![one]);
    let text = Node::text(dom, "text");
    let second = element(dom, "li", &[("class", "b")], Vec::new());
    let list = element(dom, "ul", &[("id", "list")], vec![first, text, second]);
    let document = Node::document(dom, vec![list]);
    reparent_subtree(dom, document);
    (document, list, first, text, second)
}

// Base64.

#[test]
fn base64_has_the_standard_alphabet_and_padding() {
    assert_eq!(base64_encode(b""), "");
    assert_eq!(base64_encode(b"M"), "TQ==");
    assert_eq!(base64_encode(b"Ma"), "TWE=");
    assert_eq!(base64_encode(b"Man"), "TWFu");
    assert_eq!(base64_encode(&[0xfb, 0xff]), "+/8=");
    assert_eq!(base64_decode("TWFu").as_deref(), Some("Man"));
    assert_eq!(base64_decode("TQ==").as_deref(), Some("M"));
    assert_eq!(base64_decode("T!==").as_deref(), None);
    assert_eq!(base64_decode("+/8=").as_deref(), None);
    for text in ["", "a", "ab", "abc", "gr\u{fc}n"] {
        assert_eq!(base64_decode(&base64_encode(text.as_bytes())).as_deref(), Some(text));
    }
}

// Timers.

#[test]
fn timers_run_when_they_are_due() {
    let mut window = WindowCapture::new();
    let slow = window.add_timer(1, 10, 0, false);
    let fast = window.add_timer(2, 0, 0, false);
    assert_ne!(slow, fast);
    assert_eq!(window.next_deadline(), Some(0));
    assert!(window.has_ready_work(0));
    let ready = window.ready_timers(5 * MILLISECOND);
    assert_eq!(ready.iter().map(|t| t.callback).collect::<Vec<_>>(), [2]);
    assert_eq!(window.next_deadline(), Some(10 * MILLISECOND));
    assert!(!window.has_ready_work(9 * MILLISECOND));
    let ready = window.ready_timers(10 * MILLISECOND);
    assert_eq!(ready.len(), 1);
    for entry in ready {
        window.finish_timer(entry, 10 * MILLISECOND);
    }
    assert_eq!(window.next_deadline(), None);
}

#[test]
fn intervals_come_back_and_cleared_timers_do_not() {
    let mut window = WindowCapture::new();
    let id = window.add_timer(1, 20, 0, true);
    let ready = window.ready_timers(25 * MILLISECOND);
    assert_eq!(ready.len(), 1);
    for entry in ready {
        window.finish_timer(entry, 25 * MILLISECOND);
    }
    assert_eq!(window.next_deadline(), Some(45 * MILLISECOND));
    window.clear_timer(id);
    assert!(window.ready_timers(100 * MILLISECOND).is_empty());
    let negative = window.add_timer(3, -5, 7, false);
    assert_eq!(window.next_deadline(), Some(7));
    window.clear_timer(negative);
    assert_eq!(window.next_deadline(), None);
}

#[test]
fn one_tick_runs_at_most_a_hundred_timers() {
    let mut window = WindowCapture::new();
    for callback in 0..150 {
        window.add_timer(callback, 0, 0, false);
    }
    assert_eq!(window.ready_timers(0).len(), MAX_READY_TIMERS);
    assert_eq!(window.ready_timers(0).len(), 50);
}

#[test]
fn animation_frames_are_taken_together() {
    let mut window = WindowCapture::new();
    let first = window.request_animation_frame(1);
    window.request_animation_frame(2);
    assert!(window.has_animation_frame_callbacks() && window.has_ready_work(0));
    window.cancel_animation_frame(first);
    let frames = window.take_animation_frames();
    assert_eq!(frames.iter().map(|f| f.callback).collect::<Vec<_>>(), [2]);
    assert!(!window.has_animation_frame_callbacks());
}

// Storage, network and texts.

#[test]
fn storage_keeps_strings_by_key() {
    let mut storage = Storage::new();
    storage.set_item("b", "1");
    storage.set_item("a", "2");
    storage.set_item("b", "3");
    assert_eq!(storage.get_item("b").as_deref(), Some("3"));
    assert_eq!(storage.key(0).as_deref(), Some("a"));
    assert_eq!(storage.key(2), None);
    storage.remove_item("b");
    assert_eq!(storage.get_item("b"), None);
    storage.clear();
    assert_eq!(storage.key(0), None);
}

fn response(body: &[u8]) -> HttpResponse {
    HttpResponse {
        status: 201,
        status_text: "Created".to_string(),
        headers: vec![("a b".to_string(), "c&d".to_string())],
        body: body.to_vec(),
    }
}

#[test]
fn network_results_are_handed_out_once() {
    let mut tasks = NetworkTasks::new();
    let first = tasks.start();
    let second = tasks.start();
    assert_ne!(first, second);
    assert!(tasks.poll(first, Vec::new()).is_none());
    let arrived = vec![(second, Err("down".to_string())), (first, Ok(response(b"x")))];
    assert!(matches!(tasks.poll(first, arrived), Some(Ok(r)) if r.status == 201));
    assert!(tasks.poll(first, Vec::new()).is_none());
    assert!(matches!(tasks.poll(second, Vec::new()), Some(Err(e)) if e == "down"));
}

#[test]
fn replies_tell_success_from_failure() {
    let reply = fetch_reply(Ok(response(&[b'o', 0xff])));
    assert!(reply.ok);
    assert_eq!(reply.status, 201);
    assert_eq!(reply.status_text.as_deref(), Some("Created"));
    assert_eq!(reply.body, "o\u{fffd}");
    assert_eq!(reply.headers.as_deref(), Some("a+b=c%26d"));
    assert_eq!(reply.error, None);
    let reply = fetch_reply(Err("down".to_string()));
    assert!(!reply.ok && reply.status == 0 && reply.body.is_empty());
    assert_eq!(reply.error.as_deref(), Some("down"));
    assert_eq!(reply.headers, None);
    let reply = reply_with(Ok(response(b"")), "b".to_string(), "h".to_string());
    assert_eq!((reply.body.as_str(), reply.headers.as_deref()), ("b", Some("h")));
}

#[test]
fn requests_of_scripts_are_taken_apart() {
    let parts = request_parts("", "x-a=1%202&x-b=");
    assert_eq!(parts.body, None);
    assert_eq!(
        parts.headers,
        [("x-a".to_string(), "1 2".to_string()), ("x-b".to_string(), String::new())]
    );
    assert_eq!(request_parts("data", "").body.as_deref(), Some("data"));
}

#[test]
fn texts_for_scripts_are_quoted() {
    assert!(flag_enabled(Some("1")) && flag_enabled(Some("yes")) && flag_enabled(Some("TRUE")));
    assert!(!flag_enabled(Some("True")) && !flag_enabled(None) && !flag_enabled(Some("0")));
    assert_eq!(
        trace_filter_script(" x-a, ,x\"b"),
        "globalThis.__aurora_ce_trace_filter__ = [\"x-a\",\"x\\\"b\"];"
    );
    let script = lifecycle_event_script("load");
    assert!(script.contains("document.dispatchEvent(new Event(\"load\", { bubbles: false }))"));
    assert!(script.contains("window.dispatchEvent(new Event(\"load\", { bubbles: false }))"));
    assert_eq!(console_line(&vec!["a".to_string(), "b".to_string()]), "a b");
    assert_eq!(exception_message(Some("boom"), "failed", None), "boom");
    assert_eq!(exception_message(None, "failed", Some("at x")), "failed\nat x");
}

#[test]
fn every_engine_name_falls_back() {
    assert_eq!(EngineKind::from_env(Some("v8")), (EngineKind::V8, false));
    assert_eq!(EngineKind::from_env(Some("boa")), (EngineKind::V8, true));
    assert_eq!(EngineKind::from_env(None), (EngineKind::V8, false));
    assert_eq!(EngineKind::default_compiled(), EngineKind::V8);
}

// Nodes as scripts see them.

#[test]
fn node_types_and_names() {
    let mut dom = Dom::new();
    let text = Node::text(&mut dom, "");
    let note = Node::comment(&mut dom, "");
    let p = element(&mut dom, "p", &[], Vec::new());
    let fragment = Node::document_fragment(&mut dom, Vec::new());
    let document = Node::document(&mut dom, Vec::new());
    let types: Vec<i32> =
        [p, text, note, document, fragment].iter().map(|n| node_type(&dom, *n)).collect();
    assert_eq!(types, [1, 3, 8, 9, 11]);
    let names: Vec<String> =
        [p, text, note, document, fragment].iter().map(|n| node_name(&dom, *n)).collect();
    assert_eq!(names, ["P", "#text", "#comment", "#document", "#document-fragment"]);
}

#[test]
fn dataset_keys_are_in_camel_case() {
    assert_eq!(data_attr_to_dataset_key("data-user-id").as_deref(), Some("userId"));
    assert_eq!(data_attr_to_dataset_key("data-\u{df}-\u{df}").as_deref(), Some("\u{df}SS"));
    assert_eq!(data_attr_to_dataset_key("data-a--b").as_deref(), Some("aB"));
    assert_eq!(data_attr_to_dataset_key("data-"), None);
    assert_eq!(data_attr_to_dataset_key("title"), None);
}

#[test]
fn element_navigation_skips_text() {
    let mut dom = Dom::new();
    let (_, list, first, text, second) = list_document(&mut dom);
    assert_eq!(element_children(&dom, list), vec![first, second]);
    assert_eq!(first_element_child(&dom, list), Some(first));
    assert_eq!(last_element_child(&dom, list), Some(second));
    assert_eq!(child_element_count(&dom, list), 2);
    assert_eq!(first_element_child(&dom, second), None);
    assert_eq!(sibling_for_node(&dom, first, 1, false), Some(text));
    assert_eq!(sibling_for_node(&dom, first, 1, true), Some(second));
    assert_eq!(sibling_for_node(&dom, second, -1, true), Some(first));
    assert_eq!(sibling_for_node(&dom, second, 1, false), None);
    assert_eq!(sibling_for_node(&dom, first, 0, false), None);
}

#[test]
fn parents_are_looked_up_and_repaired() {
    let mut dom = Dom::new();
    let (document, list, first, _, second) = list_document(&mut dom);
    assert_eq!(find_parent_for(&mut dom, first), Some(list));
    assert!(is_direct_child(&dom, list, first));
    set_parent(&mut dom, first, second);
    assert_eq!(find_parent(&mut dom, document, first), Some(list));
    assert_eq!(parent_ptr(&dom, first), Some(list));
    set_parent(&mut dom, first, second);
    assert_eq!(find_parent_for(&mut dom, first), None);
    assert_eq!(parent_ptr(&dom, first), None);
    clear_parent(&mut dom, second);
    assert_eq!(find_parent(&mut dom, document, second), None);
    let root = SyntheticShadowTreeBackend.attach_shadow(&mut dom, list, "open");
    assert_eq!(find_parent_for(&mut dom, root), None);
    assert_eq!(find_parent(&mut dom, document, root), Some(list));
    assert!(is_retained_subtree_root(&dom, list, root));
}

#[test]
fn slots_show_what_is_assigned_to_them() {
    let mut dom = Dom::new();
    let light = element(&mut dom, "b", &[], Vec::new());
    let host = element(&mut dom, "x-host", &[], vec![light]);
    reparent_subtree(&mut dom, host);
    let root = SyntheticShadowTreeBackend.attach_shadow(&mut dom, host, "open");
    let fallback = element(&mut dom, "i", &[], Vec::new());
    let named = element(&mut dom, "slot", &[("name", "x")], vec![fallback]);
    let slot = element(&mut dom, "slot", &[], Vec::new());
    SyntheticShadowTreeBackend.append_shadow_child(&mut dom, root, named);
    SyntheticShadowTreeBackend.append_shadow_child(&mut dom, root, slot);
    assert_eq!(slot_assigned_nodes(&mut dom, slot, false), vec![light]);
    assert_eq!(slot_assigned_nodes(&mut dom, named, false), Vec::<NodePtr>::new());
    assert_eq!(slot_assigned_nodes(&mut dom, named, true), vec![fallback]);
}

#[test]
fn document_fields_point_into_the_document() {
    let mut dom = Dom::new();
    let t = Node::text(&mut dom, "T");
    let title = element(&mut dom, "title", &[], vec![t]);
    let head = element(&mut dom, "head", &[], vec![title]);
    let body = element(&mut dom, "body", &[], Vec::new());
    let html = element(&mut dom, "html", &[], vec![head, body]);
    let document = Node::document(&mut dom, vec![html]);
    let by_tag = |tag| first_by_tag(&dom, document, tag);
    let fields = fields_of(
        &dom,
        document,
        by_tag("body"),
        by_tag("head"),
        by_tag("html"),
        by_tag("title"),
    );
    assert_eq!((fields.body, fields.head, fields.document_element), (Some(body), Some(head), html));
    assert_eq!(fields.title.as_deref(), Some("T"));
    let bare = fields_of(&dom, document, None, None, None, None);
    assert_eq!(bare.document_element, document);
    assert_eq!(bare.title, None);
}

#[test]
fn created_templates_have_contents() {
    let mut dom = Dom::new();
    let p = create_element(&mut dom, "P");
    assert_eq!(node_name(&dom, p), "P");
    assert_eq!(inner_html_target(&mut dom, p), p);
    let template = create_element(&mut dom, "template");
    let content = inner_html_target(&mut dom, template);
    assert_ne!(content, template);
    assert_eq!(inner_html_target(&mut dom, template), content);
}

#[test]
fn attributes_are_listed_in_order() {
    let mut dom = Dom::new();
    let (_, list, first, text, _) = list_document(&mut dom);
    set_attribute(&mut dom, list, "class", "c");
    let names: Vec<String> = attr_entries(&dom, list).into_iter().map(|(n, _)| n).collect();
    assert_eq!(names, ["class", "id"]);
    assert!(has_attributes(&dom, first) && !has_attributes(&dom, text));
    assert_eq!(class_selector("a b"), ".a.b");
}

#[test]
fn upgrade_candidates_start_with_an_element_root() {
    let mut dom = Dom::new();
    let x = element(&mut dom, "x-a", &[], Vec::new());
    let p = element(&mut dom, "p", &[], vec![x]);
    let document = Node::document(&mut dom, vec![p]);
    assert_eq!(upgrade_candidates(&dom, p, &vec![x]), vec![p, x]);
    assert_eq!(upgrade_candidates(&dom, document, &vec![p, x]), vec![p, x]);
}

// Queries.

fn is_li(data: &ElementData, _: &Vec<ElementData>, _: &Vec<ElementData>, _: usize) -> bool {
    data.tag_name == "li"
}

fn second_child(data: &ElementData, _: &Vec<ElementData>, _: &Vec<ElementData>, at: usize) -> bool {
    data.tag_name == "li" && at == 1
}

fn any(_: &ElementData, _: &Vec<ElementData>, _: &Vec<ElementData>, _: usize) -> bool {
    true
}

#[test]
fn first_match_heads_all_matches() {
    let mut dom = Dom::new();
    let (document, list, first, _, second) = list_document(&mut dom);
    let all = query_all(&mut dom, document, list, &any);
    assert_eq!(all, vec![first, second]);
    assert_eq!(query_first(&mut dom, document, list, &any), Some(all[0]));
    assert_eq!(query_all(&mut dom, document, first, &any), Vec::<NodePtr>::new());
    assert_eq!(query_first(&mut dom, document, first, &any), None);
}

#[test]
fn queries_walk_in_document_order() {
    let mut dom = Dom::new();
    let (document, list, first, _, second) = list_document(&mut dom);
    assert_eq!(find_by_id(&dom, document, "list"), Some(list));
    assert_eq!(find_by_id(&dom, document, "none"), None);
    let mut found = Vec::new();
    collect_by_tag(&dom, document, "li", &mut found);
    assert_eq!(found, vec![first, second]);
    let mut found = Vec::new();
    collect_by_class(&dom, document, "a", &mut found);
    assert_eq!(found, vec![first]);
    assert_eq!(descendants(&dom, list).len(), 5);
    assert_eq!(query_all(&mut dom, document, document, &is_li), vec![first, second]);
    assert_eq!(query_first(&mut dom, document, document, &is_li), Some(first));
    assert_eq!(query_first(&mut dom, document, document, &second_child), Some(second));
    assert!(selector_matches(&mut dom, first, document, &is_li));
    assert!(!selector_matches(&mut dom, list, document, &is_li));
    let one = child_nodes(&dom, first)[0];
    assert_eq!(closest(&mut dom, one, document, &is_li), Some(first));
    assert_eq!(closest(&mut dom, list, document, &is_li), None);
}

#[test]
fn matchers_are_told_of_ancestors_and_siblings() {
    let mut dom = Dom::new();
    let (document, list, first, text, second) = list_document(&mut dom);
    let chain = build_ancestor_chain(&mut dom, document, first);
    assert_eq!(chain.iter().map(|e| e.tag_name.as_str()).collect::<Vec<_>>(), ["ul"]);
    let siblings = build_sibling_list(&mut dom, document, second);
    assert_eq!(siblings.len(), 2);
    assert_eq!(sibling_index_of(&mut dom, document, second), 1);
    assert!(element_data_of(&dom, text).is_none());
    assert_eq!(element_data_of(&dom, list).map(|e| e.tag_name), Some("ul".to_string()));
    assert_eq!(element_data_list(&dom, &vec![first, text, second]).len(), 2);
}

// Placing nodes.

fn run(dom: &mut Dom, placement: Placement) {
    let mut registry = NodeRegistry::new(true);
    for m in &placement.mutations {
        apply_dom_mutation(&mut registry, dom, m, &no_forms);
    }
}

#[test]
fn nodes_are_placed_around_a_node() {
    for (position, expected) in [
        ("beforebegin", [Some(0), None]),
        ("afterend", [Some(1), None]),
        ("afterbegin", [None, Some(0)]),
        ("beforeend", [None, Some(1)]),
    ] {
        let mut dom = Dom::new();
        let inner = element(&mut dom, "i", &[], Vec::new());
        let p = element(&mut dom, "p", &[], vec![inner]);
        let outer = element(&mut dom, "div", &[], vec![p]);
        reparent_subtree(&mut dom, outer);
        let a = Node::text(&mut dom, "a");
        let b = Node::text(&mut dom, "b");
        let placement = insert_nodes_at_position(&mut dom, p, position, &vec![a, b])
            .expect("the position is known");
        run(&mut dom, placement);
        let at = |list: Vec<NodePtr>| list.iter().position(|n| *n == a);
        assert_eq!([at(child_nodes(&dom, outer)), at(child_nodes(&dom, p))], expected, "{position}");
        let all = [child_nodes(&dom, outer), child_nodes(&dom, p)].concat();
        assert!(all.windows(2).any(|w| w == [a, b]), "{position}");
    }
    let mut dom = Dom::new();
    let stray = element(&mut dom, "p", &[], Vec::new());
    assert!(insert_nodes_at_position(&mut dom, stray, "middle", &vec![]).is_none());
}

#[test]
fn children_are_appended_prepended_and_replaced() {
    let mut dom = Dom::new();
    let old = element(&mut dom, "i", &[], Vec::new());
    let p = element(&mut dom, "p", &[], vec![old]);
    reparent_subtree(&mut dom, p);
    let nodes: Vec<NodePtr> = (0..4).map(|_| element(&mut dom, "b", &[], Vec::new())).collect();
    run(&mut dom, append_children(p, &vec![nodes[0], nodes[1]]));
    assert_eq!(child_nodes(&dom, p), vec![old, nodes[0], nodes[1]]);
    run(&mut dom, prepend_children(p, &vec![nodes[2], nodes[3]]));
    assert_eq!(child_nodes(&dom, p), vec![nodes[2], nodes[3], old, nodes[0], nodes[1]]);
    run(&mut dom, replace_children(p, vec![old]));
    assert_eq!(child_nodes(&dom, p), vec![old]);
    let before = insert_relative_to_self(&mut dom, old, &vec![nodes[0], nodes[1]], false).unwrap();
    run(&mut dom, before);
    assert_eq!(child_nodes(&dom, p), vec![nodes[0], nodes[1], old]);
    let after = insert_relative_to_self(&mut dom, old, &vec![nodes[2], nodes[3]], true).unwrap();
    run(&mut dom, after);
    assert_eq!(child_nodes(&dom, p), vec![nodes[0], nodes[1], old, nodes[2], nodes[3]]);
    let swapped = replace_with(&mut dom, old, &vec![]);
    run(&mut dom, swapped);
    assert_eq!(child_nodes(&dom, p), vec![nodes[0], nodes[1], nodes[2], nodes[3]]);
    assert!(insert_relative_to_self(&mut dom, old, &vec![p], true).is_none());
    assert!(replace_with(&mut dom, old, &vec![p]).mutations.is_empty());
}

#[test]
fn fragments_are_tracked_by_their_children() {
    let mut dom = Dom::new();
    let x = element(&mut dom, "x-a", &[], Vec::new());
    let fragment = Node::document_fragment(&mut dom, vec![x]);
    assert!(matches!(tracking_for(&dom, fragment), Tracking::Nodes(nodes) if nodes == [x]));
    assert!(matches!(tracking_for(&dom, x), Tracking::Argument));
    assert!(matches!(
        reflect_attribute(x, "id", "a"),
        DomMutation::SetAttribute { name: "id", value: "a", .. }
    ));
}

// Wrappers.

#[test]
fn wrappers_describe_their_node() {
    let mut registry = NodeRegistry::new(true);
    let mut dom = Dom::new();
    let div = element(
        &mut dom,
        "x-el",
        &[("id", "a"), ("data-user-id", "7"), ("hidden", "")],
        Vec::new(),
    );
    let wrapper = describe_node(&mut registry, &mut dom, div);
    assert_eq!(registry.lookup(wrapper.node_id), Some(div));
    assert_eq!((wrapper.node_type, wrapper.node_name.as_str()), (1, "X-EL"));
    assert!(matches!(wrapper.prototype, Prototype::HtmlElement));
    let properties = wrapper.element.expect("an element has properties");
    assert_eq!((properties.tag_name.as_str(), properties.local_name.as_str()), ("X-EL", "x-el"));
    assert!(properties.hidden && !properties.svg);
    assert_eq!(properties.dataset, [("userId".to_string(), "7".to_string())]);
    assert!(wrapper.hooks.iter().any(|h| matches!(h, Hook::DecorateElement)));

    let text = Node::text(&mut dom, "t");
    let wrapper = describe_node(&mut registry, &mut dom, text);
    assert!(wrapper.has_data && wrapper.element.is_none());
    assert!(matches!(wrapper.prototype, Prototype::Node));
    let template = element(&mut dom, "template", &[], Vec::new());
    assert!(describe_node(&mut registry, &mut dom, template).content.is_some());
    let svg = element(&mut dom, "svg", &[], Vec::new());
    assert!(is_svg_tag("svg") && !is_svg_tag("div"));
    assert!(matches!(describe_node(&mut registry, &mut dom, svg).prototype, Prototype::SvgElement));
    let root = SyntheticShadowTreeBackend.attach_shadow(&mut dom, div, "open");
    let wrapper = describe_node(&mut registry, &mut dom, root);
    assert!(wrapper.has_host);
    assert!(matches!(wrapper.prototype, Prototype::DocumentFragment));
}

fn definition(name: &str, form_associated: bool) -> CeDefinition {
    CeDefinition {
        name: name.to_string(),
        constructor: 1,
        connected: None,
        disconnected: None,
        adopted: None,
        attribute_changed: None,
        observed_attributes: Vec::new(),
        form_associated,
        form_associated_callback: None,
        form_disabled_callback: None,
        form_reset_callback: None,
        form_state_restore_callback: None,
        provisional: false,
    }
}

#[test]
fn internals_are_for_form_associated_elements_and_once() {
    let mut registry = NodeRegistry::new(true);
    let mut dom = Dom::new();
    registry.custom_elements().define(definition("x-form", true));
    let plain = element(&mut dom, "x-plain", &[], Vec::new());
    let node = element(&mut dom, "x-form", &[], Vec::new());
    assert!(matches!(
        attach_internals(&mut registry, &dom, plain),
        Err(InternalsError::NotFormAssociated)
    ));
    let id = attach_internals(&mut registry, &dom, node).ok().expect("internals are given");
    assert!(registry.ce_registry().has_element_internals(id));
    assert!(matches!(
        attach_internals(&mut registry, &dom, node),
        Err(InternalsError::AlreadyAttached)
    ));
    assert_eq!(InternalsError::AlreadyAttached.exception_name(), "NotSupportedError");
    assert_ne!(InternalsError::AlreadyAttached.message(), InternalsError::NotFormAssociated.message());

    let ce = registry.custom_elements();
    ce.set_validity(id, false, "wrong".to_string());
    assert!(!ce.is_valid(id));
    assert_eq!(ce.validation_message(id), "wrong");
    ce.set_form_owner(id, Some(4));
    assert_eq!(ce.form_owner(id), Some(4));
    ce.set_form_disabled(id, true);
    assert!(ce.form_disabled(id));
    assert!(flags_valid(&vec![false, false]) && !flags_valid(&vec![false, true]));
}

#[test]
fn shadow_roots_are_attached_and_adopted() {
    let mut registry = NodeRegistry::new(true);
    let mut dom = Dom::new();
    let host = element(&mut dom, "x-host", &[], Vec::new());
    let attached = attach_shadow(&mut registry, &mut dom, host, &shadow_mode(None));
    assert!(attached.open);
    assert_eq!(shadow_root(&dom, host), Some(attached.root));
    assert_eq!(registry.lookup(attached.id), Some(attached.root));
    let other = element(&mut dom, "x-other", &[], Vec::new());
    assert!(!attach_shadow(&mut registry, &mut dom, other, "closed").open);

    let inner = element(&mut dom, "b", &[], Vec::new());
    let fragment = Node::document_fragment(&mut dom, vec![inner]);
    let third = element(&mut dom, "x-third", &[], Vec::new());
    assert!(adopt_shadow_root(&mut registry, &mut dom, third, fragment, "open"));
    assert_eq!(shadow_root(&dom, third), Some(fragment));
    assert_eq!(parent_ptr(&dom, inner), Some(fragment));
    assert!(!adopt_shadow_root(&mut registry, &mut dom, third, inner, "open"));
}

#[test]
fn layout_metrics_have_many_names() {
    assert!(matches!(layout_metric("offsetWidth"), Some(Metric::Width)));
    assert!(matches!(layout_metric("clientHeight"), Some(Metric::Height)));
    assert!(matches!(layout_metric("left"), Some(Metric::X)));
    assert!(matches!(layout_metric("offsetTop"), Some(Metric::Y)));
    assert!(layout_metric("width").is_none());
}

// Definitions and queues.

#[test]
fn defined_names_are_taken() {
    let mut ce = CeRegistry::new();
    assert_eq!(ce.validate_define("bad", 1), Err(DefineError::InvalidName));
    assert_eq!(ce.validate_define("x-a", 1), Ok(()));
    let id = ce.define(definition("x-a", true));
    assert_eq!(ce.lookup("x-a"), Some(id));
    assert!(ce.is_defined("x-a") && ce.is_form_associated("x-a") && ce.len() == 1);
    assert_eq!(ce.validate_define("x-a", 2), Err(DefineError::NameInUse));
    assert_eq!(ce.validate_define("x-b", 1), Err(DefineError::ConstructorInUse));
    assert!(DefineError::NameInUse.message("x-a").contains("x-a"));
    assert!(!ce.definition(id).is_observed("title"));
    ce.push_when_defined("x-c", 5);
    ce.push_when_defined("x-d", 6);
    ce.push_when_defined("x-c", 7);
    assert_eq!(ce.take_when_defined("x-c"), vec![5, 7]);
    assert_eq!(ce.take_when_defined("x-c"), Vec::<u32>::new());
}

#[test]
fn definitions_do_not_nest() {
    let mut ce = CeRegistry::new();
    ce.set_definition_is_running(true);
    assert_eq!(ce.validate_define("x-a", 1), Err(DefineError::DefinitionRunning));
    assert_eq!(ce.validate_define("bad", 1), Err(DefineError::InvalidName));
    ce.set_definition_is_running(false);
    assert_eq!(ce.validate_define("x-a", 1), Ok(()));
    let error = DefineError::DefinitionRunning;
    assert_eq!(error.exception_name(), "NotSupportedError");
    assert_eq!(error.message("x-a"), "another custom element is being defined");
}

#[test]
fn reactions_wait_in_order_behind_their_boundary() {
    let mut ce = CeRegistry::new();
    ce.push_reactions_stack();
    ce.enqueue_callback(1, 10, vec![], false);
    ce.enqueue_form(1, 11, FormReaction::Reset);
    ce.enqueue_adopted(2, 12, 0, 1);
    assert!(ce.has_pending_reactions());
    assert!(!ce.has_pending_connected_reaction(1));
    assert_eq!(ce.pop_reactions_stack(), vec![1, 1, 2]);
    let queue = ce.take_reactions(1).expect("reactions wait");
    assert_eq!(queue.len(), 2);
    assert!(matches!(queue[0], Reaction::Callback { callback: 10, .. }));
    assert!(matches!(queue[1], Reaction::Form { callback: 11, .. }));
    assert!(ce.take_reactions(2).is_some());
    assert!(!ce.has_pending_reactions());
    ce.enqueue_callback(3, 13, vec![], true);
    assert!(ce.has_pending_connected_reaction(3));
    assert_eq!(ce.take_backup_queue(), vec![3]);
    ce.set_bootstrap_phase(true);
    ce.set_definition_is_running(true);
    assert!(ce.bootstrap_phase() && ce.definition_is_running());
}

#[test]
fn emptied_children_lists_are_allowed() {
    let mut dom = Dom::new();
    let (_, list, first, _, _) = list_document(&mut dom);
    set_children(&mut dom, list, vec![]);
    assert_eq!(find_parent_for(&mut dom, first), None);
}
