//! Nodes, their links and what is written of them.

use aurora::css::dom_styles::{collect_styles, join_styles, source_address, StyleSource};
use aurora::dom::attributes::Attributes;
use aurora::dom::kept::{kept_nodes, sweep};
use aurora::dom::node::{attribute, child_nodes, clear_parent, discard, is_document_fragment,
    is_element_node, link_children, node_has_tag, parent_ptr, push_assigned_node, remove_attribute,
    reparent_subtree, retained_nodes, set_assigned_nodes, set_attribute, set_children, set_content,
    set_custom_element_defined, set_document_mode, set_parent, set_shadow_root,
    set_template_contents, shadow_root, template_contents, DocumentMode, Dom, Node, NodePtr,
    ParentLink, Reach};
use aurora::dom::shadow::list_without;
use aurora::dom::svg::{html_escape, serialize_svg_node};
use aurora::dom::walks::{followed_nodes, have_layers, is_acyclic, is_climb_finite, is_finite_from,
    is_renderable, nodes_below};
use aurora::order::sorted_keys;
use aurora::text::{contains_char, contains_str, ends_with, eq_ignore_ascii_case, has_word,
    is_before, is_whitespace, join, push_decimal, push_list, push_option, split, split_whitespace,
    starts_with, strip_prefix, to_ascii_lowercase, trim};
use std::collections::BTreeMap;

fn attrs(pairs: &[(&str, &str)]) -> Attributes {
    let mut attrs = Attributes::new();
    for (name, value) in pairs {
        attrs.insert(name.to_string(), value.to_string());
    }
    attrs
}

fn small_tree(dom: &mut Dom) -> (NodePtr, NodePtr, NodePtr) {
    let text = Node::text(dom, "hi");
    let p = Node::element_with_attributes(dom, "p", attrs(&[("id", "a"), ("class", "b")]), vec![text]);
    let document = Node::document(dom, vec![p]);
    reparent_subtree(dom, document);
    (document, p, text)
}

#[test]
fn attributes_are_kept_in_the_order_of_their_names() {
    let mut list = attrs(&[("title", "1"), ("class", "2"), ("id", "3")]);
    assert_eq!(list.len(), 3);
    assert_eq!(list.insert("class".to_string(), "4".to_string()).as_deref(), Some("2"));
    assert_eq!(list.get("class").map(String::as_str), Some("4"));
    assert_eq!(list.get("none"), None);
    let names: Vec<String> = list.entries().into_iter().map(|(name, _)| name).collect();
    assert_eq!(names, ["class", "id", "title"]);
    assert_eq!(list.remove("id").as_deref(), Some("3"));
    assert_eq!(list.remove("id"), None);
    assert!(!list.contains_key("id"));
    assert_eq!(list.clone().len(), 2);
}

#[test]
fn a_document_is_written_as_an_outline() {
    let mut dom = Dom::new();
    let (document, p, _) = small_tree(&mut dom);
    let note = Node::comment(&mut dom, "note");
    set_children(&mut dom, document, vec![p, note]);
    assert_eq!(
        dom.to_outline(document),
        "#document\n  <p class=\"b\" id=\"a\">\n    \"hi\"\n  <!--note-->\n"
    );
}

#[test]
fn markup_is_escaped() {
    assert_eq!(html_escape("a<b>&\"c\""), "a&lt;b&gt;&amp;&quot;c&quot;");
    assert_eq!(html_escape("plain"), "plain");
    let mut dom = Dom::new();
    let text = Node::text(&mut dom, "1 < 2");
    let note = Node::comment(&mut dom, "n");
    let g = Node::element_with_attributes(&mut dom, "g", attrs(&[("d", "\"")]), vec![text, note]);
    let written = serialize_svg_node(&dom, g);
    assert!(written.starts_with("<g d=\"&quot;\">1 &lt; 2"), "{written}");
    assert!(written.ends_with("</g>"), "{written}");
}

#[test]
fn reparenting_points_every_node_at_its_parent() {
    let mut dom = Dom::new();
    let (document, p, text) = small_tree(&mut dom);
    assert_eq!(parent_ptr(&dom, text), Some(p));
    assert_eq!(parent_ptr(&dom, p), Some(document));
    assert_eq!(parent_ptr(&dom, document), None);
    clear_parent(&mut dom, text);
    assert_eq!(parent_ptr(&dom, text), None);
    link_children(&mut dom, p);
    assert_eq!(parent_ptr(&dom, text), Some(p));
    assert!(ParentLink(Some(1)) == ParentLink(None));
}

#[test]
fn nodes_are_asked_what_they_are() {
    let mut dom = Dom::new();
    let (document, p, text) = small_tree(&mut dom);
    let fragment = Node::document_fragment(&mut dom, Vec::new());
    assert!(is_document_fragment(&dom, fragment));
    assert!(!is_document_fragment(&dom, p));
    assert!(is_element_node(&dom, p) && !is_element_node(&dom, text));
    assert!(node_has_tag(&dom, p, "p") && !node_has_tag(&dom, p, "P"));
    assert!(dom.node(p).as_element().is_some());
    assert!(dom.node(document).as_element().is_none());
    assert_eq!(dom.len(), 4);
}

#[test]
fn elements_can_be_changed() {
    let mut dom = Dom::new();
    let (document, p, text) = small_tree(&mut dom);
    assert_eq!(set_attribute(&mut dom, p, "id", "z").as_deref(), Some("a"));
    assert_eq!(attribute(&dom, p, "id").as_deref(), Some("z"));
    assert_eq!(remove_attribute(&mut dom, p, "id").as_deref(), Some("z"));
    assert_eq!(set_attribute(&mut dom, text, "id", "z"), None);
    set_content(&mut dom, text, "ho");
    assert!(matches!(dom.node(text), Node::Text(t) if t.content == "ho"));
    set_custom_element_defined(&mut dom, p, false);
    assert!(matches!(dom.node(p), Node::Element(el) if !el.custom_element_defined));
    set_document_mode(&mut dom, document, DocumentMode::Quirks);
    assert!(matches!(dom.node(document), Node::Document { mode: DocumentMode::Quirks, .. }));
    let quirky = Node::document_with_mode(&mut dom, Vec::new(), DocumentMode::LimitedQuirks);
    assert!(matches!(dom.node(quirky), Node::Document { mode: DocumentMode::LimitedQuirks, .. }));
    set_assigned_nodes(&mut dom, p, vec![text]);
    push_assigned_node(&mut dom, p, document);
    assert!(matches!(dom.node(p), Node::Element(el) if el.assigned_nodes == [text, document]));
}

#[test]
fn retained_subtrees_hang_outside_the_children() {
    let mut dom = Dom::new();
    let host = Node::element(&mut dom, "x-host", Vec::new());
    let root = Node::document_fragment(&mut dom, Vec::new());
    let content = Node::document_fragment(&mut dom, Vec::new());
    set_shadow_root(&mut dom, host, Some(root));
    set_template_contents(&mut dom, host, Some(content));
    assert_eq!(shadow_root(&dom, host), Some(root));
    assert_eq!(template_contents(&dom, host), Some(content));
    assert!(child_nodes(&dom, host).is_empty());
    let mut retained = retained_nodes(&dom, host);
    retained.sort();
    assert_eq!(retained, vec![root, content]);
    assert_eq!(followed_nodes(&dom, host, Reach::Inert), vec![content]);
    reparent_subtree(&mut dom, host);
    assert_eq!(parent_ptr(&dom, root), Some(host));
    assert_eq!(parent_ptr(&dom, content), Some(host));
}

#[test]
fn walks_through_cycles_are_refused() {
    let mut dom = Dom::new();
    let (document, p, text) = small_tree(&mut dom);
    assert!(is_finite_from(&dom, document, Reach::All));
    assert!(!is_finite_from(&dom, dom.len(), Reach::All));
    assert!(is_climb_finite(&dom, text));
    set_children(&mut dom, p, vec![document]);
    assert!(!is_finite_from(&dom, document, Reach::Children));
    set_parent(&mut dom, p, text);
    assert!(!is_climb_finite(&dom, text));
}

#[test]
fn layers_exist_unless_steps_lead_in_a_circle() {
    assert!(have_layers(0, &vec![]));
    assert!(have_layers(3, &vec![(0, 1), (0, 2), (1, 2)]));
    assert!(have_layers(4, &vec![(3, 2), (2, 1), (1, 0)]));
    assert!(!have_layers(1, &vec![(0, 0)]));
    assert!(!have_layers(3, &vec![(0, 1), (1, 2), (2, 0)]));
}

#[test]
fn trees_with_shadow_roots_are_acyclic_and_renderable() {
    let mut dom = Dom::new();
    let light = Node::text(&mut dom, "light");
    let host = Node::element(&mut dom, "x-host", vec![light]);
    let slot = Node::element(&mut dom, "slot", vec![]);
    let root = Node::element(&mut dom, "#document-fragment", vec![slot]);
    set_shadow_root(&mut dom, host, Some(root));
    set_assigned_nodes(&mut dom, slot, vec![light]);
    assert_eq!(nodes_below(&dom, host), vec![light, root]);
    assert_eq!(nodes_below(&dom, slot), vec![light]);
    assert!(is_renderable(&dom));
    assert!(is_acyclic(&dom));
}

#[test]
fn circles_through_slots_are_not_renderable() {
    let mut dom = Dom::new();
    let slot = Node::element(&mut dom, "slot", vec![]);
    let div = Node::element(&mut dom, "div", vec![slot]);
    set_assigned_nodes(&mut dom, slot, vec![div]);
    assert!(!is_renderable(&dom));
    assert!(is_acyclic(&dom));
    // A slot that its host may fill with what holds the slot.
    let mut dom = Dom::new();
    let slot = Node::element(&mut dom, "slot", vec![]);
    let shown = Node::element(&mut dom, "p", vec![slot]);
    let root = Node::element(&mut dom, "#document-fragment", vec![slot]);
    let host = Node::element(&mut dom, "x-host", vec![shown]);
    assert!(is_renderable(&dom));
    set_shadow_root(&mut dom, host, Some(root));
    assert!(!is_renderable(&dom));
    assert!(is_acyclic(&dom));
}

#[test]
fn template_contents_matter_to_owners_alone() {
    let mut dom = Dom::new();
    let template = Node::element(&mut dom, "template", vec![]);
    let content = Node::element(&mut dom, "#document-fragment", vec![template]);
    assert!(is_acyclic(&dom));
    set_template_contents(&mut dom, template, Some(content));
    assert!(!is_acyclic(&dom));
    assert!(is_renderable(&dom));
    set_children(&mut dom, template, vec![content]);
    assert!(!is_renderable(&dom));
}

#[test]
fn style_sources_are_collected_in_order() {
    let mut dom = Dom::new();
    let css = Node::text(&mut dom, "p{}");
    let style = Node::element(&mut dom, "style", vec![css]);
    let link = Node::element_with_attributes(
        &mut dom,
        "link",
        attrs(&[("rel", "stylesheet"), ("href", "/a.css")]),
        Vec::new(),
    );
    let icon = Node::element_with_attributes(
        &mut dom,
        "link",
        attrs(&[("rel", "icon"), ("href", "/i.png")]),
        Vec::new(),
    );
    let document = Node::document(&mut dom, vec![link, icon, style]);
    let sources = collect_styles(&dom, document, true);
    assert_eq!(sources.len(), 2);
    assert!(matches!(&sources[0], StyleSource::Link(href) if href == "/a.css"));
    assert!(matches!(&sources[1], StyleSource::Text(text) if text == "p{}"));
    assert_eq!(collect_styles(&dom, document, false).len(), 1);
    let fetched = vec![Some("b{}".to_string()), None];
    assert_eq!(join_styles(&sources, &fetched), "b{}\np{}\n");
    assert_eq!(join_styles(&sources, &vec![None, None]), "p{}\n");
    let base = Some("https://example.org/x/y.html");
    assert_eq!(source_address(&sources[0], base).as_deref(), Some("https://example.org/a.css"));
    assert_eq!(source_address(&sources[0], Some("no base")), None);
    assert_eq!(source_address(&sources[0], None), None);
    assert_eq!(source_address(&sources[1], base), None);
}

#[test]
fn lists_lose_every_occurrence() {
    assert_eq!(list_without(&vec![1, 2, 1, 3], 1), vec![2, 3]);
    assert_eq!(list_without(&vec![], 1), Vec::<usize>::new());
    let keys = BTreeMap::from([(5, 'a'), (1, 'b'), (3, 'c')]);
    assert_eq!(sorted_keys(&keys), vec![1, 3, 5]);
}

#[test]
fn texts_are_taken_apart_and_put_together() {
    assert_eq!(to_ascii_lowercase("AbC\u{c4}"), "abc\u{c4}");
    assert!(eq_ignore_ascii_case("DIV", "div") && !eq_ignore_ascii_case("div", "di"));
    assert_eq!(split_whitespace(" a\tb \n"), ["a", "b"]);
    assert!(has_word("one two", "two") && !has_word("one two", "tw"));
    assert!(starts_with("data-x", "data-") && !starts_with("da", "data-"));
    assert_eq!(strip_prefix("data-x", "data-").as_deref(), Some("x"));
    assert_eq!(strip_prefix("x", "data-"), None);
    assert!(ends_with("a.org", ".org") && !ends_with("org", ".org"));
    assert!(contains_str("abc", "bc") && contains_str("abc", "") && !contains_str("abc", "ac"));
    assert!(contains_char("abc", 'c') && !contains_char("abc", 'd'));
    assert!(is_before("a", "b") && is_before("a", "aa") && !is_before("a", "a"));
    assert!(is_whitespace('\u{a0}') && is_whitespace('\t') && !is_whitespace('x'));
    assert_eq!(trim(&" a b\n".chars().collect()), "a b");
    let pieces: Vec<String> = split("a,,b", ',').iter().map(|p| p.iter().collect()).collect();
    assert_eq!(pieces, ["a", "", "b"]);
    assert_eq!(join(&vec!["a".to_string(), "b".to_string()], "-"), "a-b");
    let mut out = String::new();
    push_decimal(&mut out, 0);
    push_decimal(&mut out, 1207);
    push_option(&mut out, Some(3));
    push_option(&mut out, None);
    push_list(&mut out, &vec![1, 2]);
    assert_eq!(out, "01207Some(3)None[1, 2]");
}

#[test]
fn discarded_nodes_are_nobodys_parent() {
    let mut dom = Dom::new();
    let a = Node::text(&mut dom, "a");
    let b = Node::text(&mut dom, "b");
    let p = Node::element(&mut dom, "p", vec![a]);
    let q = Node::element(&mut dom, "q", vec![b]);
    discard(&mut dom, p);
    assert_eq!((parent_ptr(&dom, a), parent_ptr(&dom, b)), (None, Some(q)));
    assert_eq!(child_nodes(&dom, p), vec![a]);
}

#[test]
fn nodes_are_kept_by_what_holds_them() {
    let mut dom = Dom::new();
    let given = Node::text(&mut dom, "given");
    let slot = Node::element(&mut dom, "slot", Vec::new());
    push_assigned_node(&mut dom, slot, given);
    let root = Node::document_fragment(&mut dom, vec![slot]);
    let host = Node::element(&mut dom, "x-host", Vec::new());
    set_shadow_root(&mut dom, host, Some(root));
    let other = Node::element(&mut dom, "div", Vec::new());
    let alive = kept_nodes(&dom, &vec![host]);
    assert!([given, slot, root, host].iter().all(|node| alive[*node]));
    assert!(!alive[other]);
    set_parent(&mut dom, given, other);
    set_parent(&mut dom, slot, root);
    sweep(&mut dom, &vec![host]);
    assert_eq!((parent_ptr(&dom, given), parent_ptr(&dom, slot)), (None, Some(root)));
}
