//! Building the document from markup, with a real tokenizer and tree builder.

use std::borrow::Cow;
use std::cell::RefCell;

use aurora::dom::node::{attribute, child_nodes, parent_ptr, template_contents, DocumentMode, Dom,
    Node, NodePtr};
use aurora::dom::svg::serialize_svg_node;
use aurora::html::sink::{add_attrs_if_missing, prune_whitespace_text, AuroraTreeSink, Parser};
use aurora::js::mutation::collect_text;
use aurora::js::nodes::parsed_html_nodes;
use aurora::js::query::find_by_id;
use html5ever::interface::QualName;
use html5ever::tendril::{StrTendril, TendrilSink};
use html5ever::tree_builder::{ElementFlags, NodeOrText, QuirksMode, TreeSink};
use html5ever::{Attribute, ParseOpts};
use markup5ever::{ExpandedName, LocalName, Namespace};

#[derive(Clone)]
struct Handle {
    node: NodePtr,
    name: Option<QualName>,
}

struct State {
    dom: Dom,
    sink: AuroraTreeSink,
}

struct Sink {
    document: Handle,
    state: RefCell<State>,
}

impl Sink {
    fn new() -> Sink {
        let mut dom = Dom::new();
        let sink = AuroraTreeSink::new(&mut dom);
        let name = QualName::new(None, Namespace::from(""), LocalName::from(""));
        Sink {
            document: Handle { node: sink.document, name: Some(name) },
            state: RefCell::new(State { dom, sink }),
        }
    }

    fn node_of(state: &mut State, child: NodeOrText<Handle>) -> NodePtr {
        match child {
            NodeOrText::AppendNode(node) => node.node,
            NodeOrText::AppendText(text) => Node::text(&mut state.dom, &text),
        }
    }
}

fn pairs(attrs: Vec<Attribute>) -> Vec<(String, String)> {
    attrs.into_iter().map(|attr| (attr.name.local.to_string(), attr.value.to_string())).collect()
}

impl TreeSink for Sink {
    type Handle = Handle;
    type Output = (Dom, NodePtr);
    type ElemName<'a> = ExpandedName<'a>;

    fn finish(self) -> Self::Output {
        let State { mut dom, sink } = self.state.into_inner();
        let document = sink.finish(&mut dom);
        (dom, document)
    }

    fn parse_error(&self, _message: Cow<'static, str>) {}

    fn get_document(&self) -> Handle {
        self.document.clone()
    }

    fn elem_name<'a>(&'a self, target: &'a Handle) -> ExpandedName<'a> {
        target.name.as_ref().expect("only elements are asked for their name").expanded()
    }

    fn create_element(&self, name: QualName, attrs: Vec<Attribute>, _flags: ElementFlags) -> Handle {
        let state = &mut *self.state.borrow_mut();
        let node = state.sink.create_element(&mut state.dom, &name.local, &pairs(attrs));
        Handle { node, name: Some(name) }
    }

    fn create_comment(&self, text: StrTendril) -> Handle {
        let state = &mut *self.state.borrow_mut();
        Handle { node: Node::comment(&mut state.dom, &text), name: None }
    }

    fn create_pi(&self, _target: StrTendril, _data: StrTendril) -> Handle {
        let state = &mut *self.state.borrow_mut();
        Handle { node: Node::text(&mut state.dom, ""), name: None }
    }

    fn append(&self, parent: &Handle, child: NodeOrText<Handle>) {
        let state = &mut *self.state.borrow_mut();
        let child = Sink::node_of(state, child);
        state.sink.append_child(&mut state.dom, parent.node, child);
    }

    fn append_based_on_parent_node(
        &self,
        element: &Handle,
        prev_element: &Handle,
        child: NodeOrText<Handle>,
    ) {
        let state = &mut *self.state.borrow_mut();
        let child = Sink::node_of(state, child);
        state.sink.append_based_on_parent_node(
            &mut state.dom,
            element.node,
            prev_element.node,
            child,
        );
    }

    fn append_doctype_to_document(&self, _name: StrTendril, _public: StrTendril, _system: StrTendril) {
    }

    fn get_template_contents(&self, target: &Handle) -> Handle {
        Handle { node: self.state.borrow().sink.get_template_contents(target.node), name: None }
    }

    fn same_node(&self, x: &Handle, y: &Handle) -> bool {
        x.node == y.node
    }

    fn set_quirks_mode(&self, mode: QuirksMode) {
        self.state.borrow_mut().sink.set_quirks_mode(match mode {
            QuirksMode::NoQuirks => DocumentMode::NoQuirks,
            QuirksMode::Quirks => DocumentMode::Quirks,
            QuirksMode::LimitedQuirks => DocumentMode::LimitedQuirks,
        });
    }

    fn append_before_sibling(&self, sibling: &Handle, child: NodeOrText<Handle>) {
        let state = &mut *self.state.borrow_mut();
        let child = Sink::node_of(state, child);
        state.sink.append_before(&mut state.dom, sibling.node, child);
    }

    fn add_attrs_if_missing(&self, target: &Handle, attrs: Vec<Attribute>) {
        let state = &mut *self.state.borrow_mut();
        add_attrs_if_missing(&mut state.dom, target.node, &pairs(attrs));
    }

    fn remove_from_parent(&self, target: &Handle) {
        let state = &mut *self.state.borrow_mut();
        state.sink.remove_child_from_parent(&mut state.dom, target.node);
    }

    fn reparent_children(&self, node: &Handle, new_parent: &Handle) {
        let state = &mut *self.state.borrow_mut();
        state.sink.reparent_children(&mut state.dom, node.node, new_parent.node);
    }
}

fn parse(markup: &str) -> (Dom, NodePtr) {
    let parser = Parser::new(markup);
    html5ever::parse_document(Sink::new(), ParseOpts::default()).one(StrTendril::from(parser.source))
}

fn outline(markup: &str) -> String {
    let (dom, document) = parse(markup);
    dom.to_outline(document)
}

#[test]
fn markup_becomes_a_tree() {
    let (dom, document) = parse("<!doctype html><title>T</title><p id=a>one <b>two</b></p>");
    let html = child_nodes(&dom, document)[0];
    assert_eq!(child_nodes(&dom, html).len(), 2);
    let p = find_by_id(&dom, document, "a").expect("the paragraph has an id");
    assert_eq!(collect_text(&dom, p), "one two");
    assert!(matches!(dom.node(document), Node::Document { mode: DocumentMode::NoQuirks, .. }));
    let (dom, document) = parse("<p>quirky");
    assert!(matches!(dom.node(document), Node::Document { mode: DocumentMode::Quirks, .. }));
}

#[test]
fn blank_text_is_pruned_except_where_it_counts() {
    let (dom, document) = parse("<html><body>\n <p> </p>\n<textarea> </textarea></body></html>");
    let text = outline("<html><body>\n <p> </p>\n<textarea> </textarea></body></html>");
    assert!(text.contains("textarea"), "{text}");
    let html = child_nodes(&dom, document)[0];
    let body = child_nodes(&dom, html)[1];
    let kids = child_nodes(&dom, body);
    assert_eq!(kids.len(), 2);
    assert!(child_nodes(&dom, kids[0]).is_empty());
    assert_eq!(child_nodes(&dom, kids[1]).len(), 1);
}

#[test]
fn adjacent_text_is_merged() {
    let mut dom = Dom::new();
    let mut sink = AuroraTreeSink::new(&mut dom);
    let p = sink.create_element(&mut dom, "p", &Vec::new());
    let a = Node::text(&mut dom, "a");
    let b = Node::text(&mut dom, "b");
    sink.append_child(&mut dom, p, a);
    sink.append_child(&mut dom, p, b);
    assert_eq!(child_nodes(&dom, p), vec![a]);
    assert_eq!(collect_text(&dom, p), "ab");
}

#[test]
fn formatting_is_adopted_out_of_order() {
    let (dom, document) = parse("<p id=p>1<b>2<i>3</b>4</i>5");
    let p = find_by_id(&dom, document, "p").expect("the paragraph has an id");
    assert_eq!(collect_text(&dom, p), "12345");
    assert_eq!(serialize_svg_node(&dom, p), "<p id=\"p\">1<b>2<i>3</i></b><i>4</i>5</p>");
}

#[test]
fn misplaced_table_content_moves_before_the_table() {
    let (dom, document) = parse("<body><table>stray<tr><td>cell</table>");
    let html = child_nodes(&dom, document)[0];
    let body = child_nodes(&dom, html)[1];
    let kids = child_nodes(&dom, body);
    assert_eq!(collect_text(&dom, kids[0]), "stray");
    assert_eq!(collect_text(&dom, kids[1]), "cell");
}

#[test]
fn templates_keep_their_contents_apart() {
    let (dom, document) = parse("<template id=t><b>x</b></template>");
    let template = find_by_id(&dom, document, "t").expect("the template has an id");
    assert!(child_nodes(&dom, template).is_empty());
    let content = template_contents(&dom, template).expect("a template has contents");
    assert_eq!(collect_text(&dom, content), "x");
}

#[test]
fn late_attributes_of_the_body_fill_gaps_only() {
    let (dom, document) = parse("<body class=a><body class=b id=late>");
    let body = find_by_id(&dom, document, "late").expect("the missing id is added");
    assert_eq!(attribute(&dom, body, "class").as_deref(), Some("a"));
}

#[test]
fn parsed_fragments_are_the_children_of_the_body() {
    let (mut dom, document) = parse("<i>1</i>2");
    let nodes = parsed_html_nodes(&mut dom, document);
    assert_eq!(nodes.len(), 2);
    assert!(nodes.iter().all(|node| parent_ptr(&dom, *node).is_none()));
    assert_eq!(collect_text(&dom, nodes[0]), "1");
    assert_eq!(collect_text(&dom, nodes[1]), "2");
}

#[test]
fn the_sink_moves_nodes_between_parents() {
    let mut dom = Dom::new();
    let mut sink = AuroraTreeSink::new(&mut dom);
    let attrs = vec![("id".to_string(), "a".to_string())];
    let a = sink.create_element(&mut dom, "div", &attrs);
    let b = sink.create_element(&mut dom, "div", &Vec::new());
    let kid = sink.create_element(&mut dom, "i", &Vec::new());
    let early = sink.create_element(&mut dom, "u", &Vec::new());
    sink.append_child(&mut dom, a, kid);
    sink.append_before(&mut dom, kid, early);
    assert_eq!(child_nodes(&dom, a), vec![early, kid]);
    sink.reparent_children(&mut dom, a, b);
    assert!(child_nodes(&dom, a).is_empty());
    assert_eq!(child_nodes(&dom, b), vec![early, kid]);
    sink.remove_child_from_parent(&mut dom, early);
    assert_eq!(child_nodes(&dom, b), vec![kid]);
    sink.append_based_on_parent_node(&mut dom, kid, a, early);
    assert_eq!(child_nodes(&dom, b), vec![early, kid]);
    let stray = sink.create_element(&mut dom, "p", &Vec::new());
    let last = sink.create_element(&mut dom, "q", &Vec::new());
    sink.append_based_on_parent_node(&mut dom, stray, a, last);
    assert_eq!(child_nodes(&dom, a), vec![last]);
    assert_eq!(attribute(&dom, a, "id").as_deref(), Some("a"));
    assert_eq!(sink.get_template_contents(a), a);
}

#[test]
fn pruning_can_be_told_to_keep_blank_text() {
    let mut dom = Dom::new();
    let blank = Node::text(&mut dom, " \n");
    let fragment = Node::document_fragment(&mut dom, vec![blank]);
    prune_whitespace_text(&mut dom, fragment, true);
    assert!(child_nodes(&dom, fragment).is_empty());
    let blank = Node::text(&mut dom, " \n");
    let document = Node::document(&mut dom, vec![blank]);
    prune_whitespace_text(&mut dom, document, true);
    assert_eq!(child_nodes(&dom, document), vec![blank]);
    prune_whitespace_text(&mut dom, document, false);
    assert!(child_nodes(&dom, document).is_empty());
}
