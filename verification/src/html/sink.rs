//! What a parser does to the document that it builds.

use crate::dom::attributes::Attributes;
use crate::dom::node::{child_nodes, children_of, closed_links, ends_within, finite_from, followed,
    is_container, links_ok, node_ok, rechilded, set_attribute, set_children, set_content,
    set_document_mode, set_template_contents, with_attributes, with_children, with_content,
    with_element, with_mode, with_template, DocumentMode, Dom, DomView, Node, NodePtr, NodeView,
    Reach};
use crate::dom::shadow::{lemma_without, list_without, without};
use crate::js::mutation::{index_in, position_of};
use crate::text::{chars_of, is_space, is_whitespace, text_eq};
use std::collections::BTreeMap;
use vstd::prelude::*;

verus! {

broadcast use vstd::std_specs::btree::group_btree_axioms;

/// Markup to be parsed.
#[derive(Debug, Clone, Copy)]
pub struct Parser<'a> {
    pub source: &'a str,
}

impl<'a> Parser<'a> {
    pub fn new(source: &'a str) -> (res: Self)
        ensures
            res.source == source,
    {
        Parser { source }
    }
}

/// A document that is being built.
#[derive(Debug)]
pub struct AuroraTreeSink {
    pub document: NodePtr,
    /// The parent that each node was last put below.
    pub parents: BTreeMap<usize, NodePtr>,
    /// The contents of each `<template>`.
    pub template_contents: BTreeMap<usize, NodePtr>,
    pub mode: DocumentMode,
}

/// A document that is being built, together with the nodes.
#[verifier::ext_equal]
pub struct SinkView {
    pub dom: DomView,
    pub document: NodePtr,
    pub parents: Map<usize, NodePtr>,
    pub templates: Map<usize, NodePtr>,
    pub mode: DocumentMode,
}

/// The view of a sink.
pub open spec fn sink_view(d: DomView, s: AuroraTreeSink) -> SinkView {
    SinkView {
        dom: d,
        document: s.document,
        parents: s.parents@,
        templates: s.template_contents@,
        mode: s.mode,
    }
}

/// Whether every pointer of a sink names a node.
pub open spec fn sink_ok(w: SinkView) -> bool {
    &&& closed_links(w.dom)
    &&& w.document < w.dom.len()
    &&& forall|n: usize| #[trigger] w.parents.contains_key(n) ==> w.parents[n] < w.dom.len()
    &&& forall|n: usize| #[trigger] w.templates.contains_key(n) ==> w.templates[n] < w.dom.len()
}

/// The text of a text node.
pub open spec fn text_content(n: NodeView) -> Option<Seq<char>> {
    match n {
        NodeView::Text { content, parent } => Some(content),
        _ => None,
    }
}

/// Whether appending `c` below `p` extends the text that ends its child list.
pub open spec fn merges(d: DomView, p: NodePtr, c: NodePtr) -> bool {
    let kids = children_of(d[p as int]);
    d[c as int] is Text && kids.len() > 0 && d[kids.last() as int] is Text
}

/// The nodes after `c` was put at the end of `p`: text is added to text.
pub open spec fn appended(d: DomView, p: NodePtr, c: NodePtr) -> DomView {
    let kids = children_of(d[p as int]);
    if merges(d, p, c) {
        let last = kids.last();
        d.update(
            last as int,
            with_content(
                d[last as int],
                text_content(d[last as int])->0 + text_content(d[c as int])->0,
            ),
        )
    } else {
        rechilded(d, p, kids.push(c))
    }
}

/// The sink after `c` was put at the end of `p`. A node that keeps no children
/// takes none.
pub open spec fn put_last(w: SinkView, p: NodePtr, c: NodePtr) -> SinkView {
    if is_container(w.dom[p as int]) {
        SinkView { dom: appended(w.dom, p, c), parents: w.parents.insert(c, p), ..w }
    } else {
        w
    }
}

/// The sink after every node of a list was put at the end of `p`.
pub open spec fn put_all(w: SinkView, p: NodePtr, list: Seq<NodePtr>) -> SinkView
    decreases list.len(),
{
    if list.len() == 0 {
        w
    } else {
        put_last(put_all(w, p, list.drop_last()), p, list.last())
    }
}

/// The sink after `target` left the node that it was last put below.
pub open spec fn taken_away(w: SinkView, target: NodePtr) -> SinkView {
    if w.parents.contains_key(target) {
        let p = w.parents[target];
        SinkView {
            dom: rechilded(w.dom, p, without(children_of(w.dom[p as int]), target)),
            parents: w.parents.remove(target),
            ..w
        }
    } else {
        w
    }
}

/// The sink after `c` was put before `sibling`, wherever that was last put.
pub open spec fn put_before(w: SinkView, sibling: NodePtr, c: NodePtr) -> SinkView {
    if w.parents.contains_key(sibling) && is_container(w.dom[w.parents[sibling] as int]) {
        let p = w.parents[sibling];
        let kids = children_of(w.dom[p as int]);
        SinkView {
            dom: rechilded(w.dom, p, kids.insert(index_in(kids, sibling) as int, c)),
            parents: w.parents.insert(c, p),
            ..w
        }
    } else {
        w
    }
}

/// The attributes of a list; a later one wins.
pub open spec fn attribute_list(list: Seq<(String, String)>) -> Map<Seq<char>, Seq<char>>
    decreases list.len(),
{
    if list.len() == 0 {
        Map::empty()
    } else {
        attribute_list(list.drop_last()).insert(list.last().0@, list.last().1@)
    }
}

/// The sink with one more element; a `<template>` gets contents.
pub open spec fn with_new_element(w: SinkView, local: Seq<char>, attrs: Seq<(String, String)>) -> SinkView {
    let node = w.dom.len() as NodePtr;
    let d = with_element(w.dom, local, attribute_list(attrs), Seq::empty());
    if local == "template"@ {
        let content = d.len() as NodePtr;
        let e = with_element(d, "#document-fragment"@, Map::empty(), Seq::empty());
        SinkView {
            dom: e.update(node as int, with_template(e[node as int], Some(content))),
            templates: w.templates.insert(node, content),
            ..w
        }
    } else {
        SinkView { dom: d, ..w }
    }
}

/// Attributes with those of a list that are missing; an earlier one wins.
pub open spec fn completed(m: Map<Seq<char>, Seq<char>>, list: Seq<(String, String)>) -> Map<
    Seq<char>,
    Seq<char>,
>
    decreases list.len(),
{
    if list.len() == 0 {
        m
    } else {
        let before = completed(m, list.drop_last());
        if before.contains_key(list.last().0@) {
            before
        } else {
            before.insert(list.last().0@, list.last().1@)
        }
    }
}

/// Whether a text is nothing but white space.
pub open spec fn is_blank(s: Seq<char>) -> bool {
    forall|i: int| 0 <= i < s.len() ==> is_space(#[trigger] s[i])
}

/// Whether a node is text of nothing but white space.
pub open spec fn is_blank_text(n: NodeView) -> bool {
    text_content(n) matches Some(s) && is_blank(s)
}

/// Whether white space below a node is kept: some elements say, other nodes
/// pass on what they are told.
pub open spec fn keeps_space(n: NodeView, told: bool) -> bool {
    match n {
        NodeView::Element(el) => el.tag_name == "script"@ || el.tag_name == "style"@ || el.tag_name
            == "textarea"@ || el.tag_name == "title"@,
        _ => told,
    }
}

/// Children without blank text.
pub open spec fn unblanked(d: DomView, kids: Seq<NodePtr>) -> Seq<NodePtr>
    decreases kids.len(),
{
    if kids.len() == 0 {
        Seq::empty()
    } else if is_blank_text(d[kids.last() as int]) {
        unblanked(d, kids.drop_last())
    } else {
        unblanked(d, kids.drop_last()).push(kids.last())
    }
}

/// The children of a node that pruning leaves.
pub open spec fn kept_children(d: DomView, n: NodePtr, told: bool) -> Seq<NodePtr> {
    let kids = children_of(d[n as int]);
    if keeps_space(d[n as int], told) {
        kids
    } else {
        unblanked(d, kids)
    }
}

/// The nodes without blank text below `n`.
pub open spec fn pruned(d: DomView, n: NodePtr, told: bool, fuel: nat) -> DomView
    decreases fuel, 1nat, 0nat,
{
    if is_container(d[n as int]) {
        let kids = kept_children(d, n, told);
        pruned_all(rechilded(d, n, kids), kids, keeps_space(d[n as int], told), fuel)
    } else {
        d
    }
}

/// The nodes without blank text below those of a list.
pub open spec fn pruned_all(d: DomView, kids: Seq<NodePtr>, told: bool, fuel: nat) -> DomView
    decreases fuel, 0nat, kids.len(),
{
    if kids.len() == 0 || fuel == 0 {
        d
    } else {
        pruned(pruned_all(d, kids.drop_last(), told, fuel), kids.last(), told, (fuel - 1) as nat)
    }
}

/// Whether every node of `e` has no other children than in `d`.
pub open spec fn no_new_children(d: DomView, e: DomView) -> bool {
    &&& d.len() == e.len()
    &&& forall|i: int, j: int|
        0 <= i < d.len() && 0 <= j < children_of(e[i]).len() ==> children_of(d[i]).contains(
            #[trigger] children_of(e[i])[j],
        )
}

proof fn lemma_fewer_children(d: DomView, e: DomView, n: NodePtr, fuel: nat)
    requires
        no_new_children(d, e),
        ends_within(d, n, Reach::Children, fuel),
    ensures
        ends_within(e, n, Reach::Children, fuel),
    decreases fuel,
{
    let kids = followed(e[n as int], Reach::Children);
    let all = followed(d[n as int], Reach::Children);
    assert forall|i: int| 0 <= i < kids.len() implies ends_within(
        e,
        #[trigger] kids[i],
        Reach::Children,
        (fuel - 1) as nat,
    ) by {
        assert(children_of(d[n as int]).contains(children_of(e[n as int])[i]));
        let j = choose|j: int| 0 <= j < all.len() && all[j] == kids[i];
        assert(ends_within(d, all[j], Reach::Children, (fuel - 1) as nat));
        lemma_fewer_children(d, e, kids[i], (fuel - 1) as nat);
    }
}

proof fn lemma_unblanked(d: DomView, kids: Seq<NodePtr>)
    ensures
        forall|i: int|
            0 <= i < unblanked(d, kids).len() ==> kids.contains(#[trigger] unblanked(d, kids)[i]),
    decreases kids.len(),
{
    if kids.len() > 0 {
        let front = kids.drop_last();
        lemma_unblanked(d, front);
        let kept = unblanked(d, kids);
        assert forall|i: int| 0 <= i < kept.len() implies kids.contains(#[trigger] kept[i]) by {
            if i < unblanked(d, front).len() {
                assert(kept[i] == unblanked(d, front)[i]);
                let j = choose|j: int| 0 <= j < front.len() && front[j] == kept[i];
                assert(kids[j] == kept[i]);
            } else {
                assert(kids[kids.len() - 1] == kept[i]);
            }
        }
    }
}

proof fn lemma_no_new_trans(d: DomView, e: DomView, f: DomView)
    requires
        no_new_children(d, e),
        no_new_children(e, f),
    ensures
        no_new_children(d, f),
{
    assert forall|i: int, j: int|
        0 <= i < d.len() && 0 <= j < children_of(f[i]).len() implies children_of(d[i]).contains(
        #[trigger] children_of(f[i])[j],
    ) by {
        let x = children_of(f[i])[j];
        assert(children_of(e[i]).contains(x));
        let k = choose|k: int| 0 <= k < children_of(e[i]).len() && children_of(e[i])[k] == x;
        assert(children_of(d[i]).contains(children_of(e[i])[k]));
    }
}

proof fn lemma_rechilded_fewer(d: DomView, n: NodePtr, kids: Seq<NodePtr>)
    requires
        n < d.len(),
        forall|i: int|
            0 <= i < kids.len() ==> children_of(d[n as int]).contains(#[trigger] kids[i]),
    ensures
        no_new_children(d, rechilded(d, n, kids)),
{
    let e = rechilded(d, n, kids);
    assert forall|i: int, j: int|
        0 <= i < d.len() && 0 <= j < children_of(e[i]).len() implies children_of(d[i]).contains(
        #[trigger] children_of(e[i])[j],
    ) by {
        if i == n && is_container(d[i]) {
            assert(children_of(e[i]) == kids);
            assert(kids[j] == children_of(e[i])[j]);
        } else {
            assert(children_of(d[i])[j] == children_of(e[i])[j]);
        }
    }
}

fn text_is_blank(s: &str) -> (res: bool)
    ensures
        res == is_blank(s@),
{
    let chars = chars_of(s);
    let mut i: usize = 0;
    while i < chars.len()
        invariant
            i <= chars.len(),
            chars@ == s@,
            forall|j: int| 0 <= j < i ==> is_space(#[trigger] s@[j]),
        decreases chars.len() - i,
    {
        if !is_whitespace(chars[i]) {
            assert(!is_space(s@[i as int]));
            return false;
        }
        i = i + 1;
    }
    true
}

fn prune_within(dom: &mut Dom, node: NodePtr, told: bool, Ghost(fuel): Ghost<nat>)
    requires
        old(dom).wf(),
        ends_within(old(dom)@, node, Reach::Children, fuel),
    ensures
        final(dom).wf(),
        final(dom)@ == pruned(old(dom)@, node, told, fuel),
        no_new_children(old(dom)@, final(dom)@),
    decreases fuel,
{
    let ghost d = dom@;
    let keep = match dom.node(node) {
        Node::Element(el) => text_eq(el.tag_name.as_str(), "script") || text_eq(
            el.tag_name.as_str(),
            "style",
        ) || text_eq(el.tag_name.as_str(), "textarea") || text_eq(el.tag_name.as_str(), "title"),
        _ => told,
    };
    let container = match dom.node(node) {
        Node::Document { .. } => true,
        Node::Element(_) => true,
        _ => false,
    };
    if !container {
        return ;
    }
    let kids = child_nodes(dom, node);
    proof {
        assert(node_ok(d[node as int], d.len()));
    }
    let kept = if keep {
        kids
    } else {
        let mut list: Vec<NodePtr> = Vec::new();
        let mut i: usize = 0;
        while i < kids.len()
            invariant
                i <= kids.len(),
                dom@ == d,
                links_ok(kids@, d.len()),
                list@ == unblanked(d, kids@.take(i as int)),
            decreases kids.len() - i,
        {
            proof {
                assert(kids@.take(i + 1).drop_last() == kids@.take(i as int));
                assert(kids@.take(i + 1).last() == kids@[i as int]);
                assert(kids@[i as int] < d.len());
            }
            let blank = match dom.node(kids[i]) {
                Node::Text(text) => text_is_blank(text.content.as_str()),
                _ => false,
            };
            if !blank {
                list.push(kids[i]);
            }
            i = i + 1;
        }
        assert(kids@.take(i as int) == kids@);
        list
    };
    proof {
        let all = children_of(d[node as int]);
        assert(kept@ == kept_children(d, node, told));
        lemma_unblanked(d, all);
        assert forall|i: int| 0 <= i < kept@.len() implies all.contains(#[trigger] kept@[i]) by {
            if keep {
                assert(all[i] == kept@[i]);
            }
        }
        assert forall|i: int| 0 <= i < kept@.len() implies #[trigger] kept@[i] < d.len() by {
            let j = choose|j: int| 0 <= j < all.len() && all[j] == kept@[i];
            assert(all[j] < d.len());
        }
        lemma_rechilded_fewer(d, node, kept@);
    }
    let list = crate::dom::node::copy_list(&kept);
    set_children(dom, node, list);
    let ghost base = dom@;
    let mut i: usize = 0;
    while i < kept.len()
        invariant
            i <= kept.len(),
            dom.wf(),
            fuel > 0,
            no_new_children(d, base),
            no_new_children(d, dom@),
            ends_within(d, node, Reach::Children, fuel),
            forall|j: int|
                0 <= j < kept@.len() ==> children_of(d[node as int]).contains(#[trigger] kept@[j]),
            dom@ == pruned_all(base, kept@.take(i as int), keep, fuel),
        decreases kept.len() - i,
    {
        let ghost before = dom@;
        proof {
            assert(kept@.take(i + 1).drop_last() == kept@.take(i as int));
            assert(kept@.take(i + 1).last() == kept@[i as int]);
            let all = followed(d[node as int], Reach::Children);
            let j = choose|j: int| 0 <= j < all.len() && all[j] == kept@[i as int];
            assert(ends_within(d, all[j], Reach::Children, (fuel - 1) as nat));
            lemma_fewer_children(d, dom@, kept@[i as int], (fuel - 1) as nat);
        }
        prune_within(dom, kept[i], keep, Ghost((fuel - 1) as nat));
        proof {
            lemma_no_new_trans(d, before, dom@);
        }
        i = i + 1;
    }
    assert(kept@.take(i as int) == kept@);
}

/// Drops text of nothing but white space below `node`, except where white space
/// is kept.
pub fn prune_whitespace_text(dom: &mut Dom, node: NodePtr, preserve_text_whitespace: bool)
    requires
        old(dom).wf(),
        finite_from(old(dom)@, node, Reach::Children),
    ensures
        final(dom).wf(),
        final(dom)@ == pruned(old(dom)@, node, preserve_text_whitespace, old(dom)@.len()),
{
    prune_within(dom, node, preserve_text_whitespace, Ghost(dom@.len()));
}

impl AuroraTreeSink {
    /// A sink over an empty document, which it adds to `dom`.
    pub fn new(dom: &mut Dom) -> (res: Self)
        requires
            old(dom).wf(),
        ensures
            final(dom).wf(),
            sink_ok(sink_view(final(dom)@, res)),
            sink_view(final(dom)@, res) == (SinkView {
                dom: old(dom)@.push(
                    NodeView::Document { children: Seq::empty(), mode: DocumentMode::NoQuirks },
                ),
                document: old(dom)@.len() as NodePtr,
                parents: Map::empty(),
                templates: Map::empty(),
                mode: DocumentMode::NoQuirks,
            }),
    {
        let none: Vec<NodePtr> = Vec::new();
        assert(none@ =~= Seq::<NodePtr>::empty());
        let document: NodePtr = Node::document_with_mode(dom, none, DocumentMode::NoQuirks);
        AuroraTreeSink {
            document,
            parents: BTreeMap::new(),
            template_contents: BTreeMap::new(),
            mode: DocumentMode::NoQuirks,
        }
    }

    /// Puts `child` at the end of `parent`. Text is added to text that the
    /// child list ends with.
    pub fn append_child(&mut self, dom: &mut Dom, parent: NodePtr, child: NodePtr)
        requires
            sink_ok(sink_view(old(dom)@, *old(self))),
            parent < old(dom)@.len(),
            child < old(dom)@.len(),
        ensures
            final(dom).wf(),
            sink_ok(sink_view(final(dom)@, *final(self))),
            final(dom)@.len() == old(dom)@.len(),
            sink_view(final(dom)@, *final(self)) == put_last(
                sink_view(old(dom)@, *old(self)),
                parent,
                child,
            ),
    {
        let ghost d = dom@;
        let container = match dom.node(parent) {
            Node::Document { .. } => true,
            Node::Element(_) => true,
            _ => false,
        };
        if !container {
            return ;
        }
        let mut kids = child_nodes(dom, parent);
        proof {
            assert(node_ok(d[parent as int], d.len()));
        }
        let added: Option<String> = match dom.node(child) {
            Node::Text(text) => Some(text.content.clone()),
            _ => None,
        };
        let mut merged = false;
        if let Some(text) = added {
            if kids.len() > 0 {
                let last: NodePtr = kids[kids.len() - 1];
                assert(kids@[kids@.len() - 1] < d.len());
                let grown: Option<String> = match dom.node(last) {
                    Node::Text(t) => {
                        let mut s = t.content.clone();
                        s.push_str(text.as_str());
                        Some(s)
                    },
                    _ => None,
                };
                if let Some(s) = grown {
                    set_content(dom, last, s.as_str());
                    merged = true;
                }
            }
        }
        assert(merged == merges(d, parent, child));
        if !merged {
            kids.push(child);
            set_children(dom, parent, kids);
        }
        assert(dom@ == appended(d, parent, child));
        let _ = self.parents.insert(child, parent);
    }

    /// Takes `target` out of the node that it was last put below.
    pub fn remove_child_from_parent(&mut self, dom: &mut Dom, target: NodePtr)
        requires
            sink_ok(sink_view(old(dom)@, *old(self))),
        ensures
            final(dom).wf(),
            sink_ok(sink_view(final(dom)@, *final(self))),
            sink_view(final(dom)@, *final(self)) == taken_away(
                sink_view(old(dom)@, *old(self)),
                target,
            ),
    {
        let ghost w = sink_view(dom@, *self);
        let parent: NodePtr = match self.parents.remove(&target) {
            Some(p) => p,
            None => {
                assert(sink_view(dom@, *self) =~= w);
                return ;
            },
        };
        assert(w.parents.contains_key(target));
        proof {
            assert(node_ok(dom@[parent as int], dom@.len()));
            lemma_without(children_of(dom@[parent as int]), target);
            assert(links_ok(children_of(dom@[parent as int]), dom@.len()));
        }
        let kept = list_without(&child_nodes(dom, parent), target);
        set_children(dom, parent, kept);
        assert(sink_view(dom@, *self) =~= taken_away(w, target));
    }

    /// Puts `child` before `sibling`. Nothing happens where `sibling` was not
    /// put below a node.
    pub fn append_before(&mut self, dom: &mut Dom, sibling: NodePtr, child: NodePtr)
        requires
            sink_ok(sink_view(old(dom)@, *old(self))),
            child < old(dom)@.len(),
        ensures
            final(dom).wf(),
            sink_ok(sink_view(final(dom)@, *final(self))),
            sink_view(final(dom)@, *final(self)) == put_before(
                sink_view(old(dom)@, *old(self)),
                sibling,
                child,
            ),
    {
        let parent: NodePtr = match self.parents.get(&sibling) {
            Some(p) => *p,
            None => {
                return ;
            },
        };
        let container = match dom.node(parent) {
            Node::Document { .. } => true,
            Node::Element(_) => true,
            _ => false,
        };
        if !container {
            return ;
        }
        proof {
            assert(node_ok(dom@[parent as int], dom@.len()));
        }
        let mut kids = child_nodes(dom, parent);
        let ghost was = kids@;
        let at: usize = position_of(&kids, sibling);
        kids.insert(at, child);
        assert forall|i: int| 0 <= i < kids@.len() implies #[trigger] kids@[i] < dom@.len() by {
            if i < at {
                assert(kids@[i] == was[i]);
            } else if i > at {
                assert(kids@[i] == was[i - 1]);
            }
        }
        set_children(dom, parent, kids);
        let _ = self.parents.insert(child, parent);
    }

    /// Puts `child` before `element` where that has a parent, else at the end
    /// of `prev_element`.
    pub fn append_based_on_parent_node(
        &mut self,
        dom: &mut Dom,
        element: NodePtr,
        prev_element: NodePtr,
        child: NodePtr,
    )
        requires
            sink_ok(sink_view(old(dom)@, *old(self))),
            prev_element < old(dom)@.len(),
            child < old(dom)@.len(),
        ensures
            final(dom).wf(),
            sink_ok(sink_view(final(dom)@, *final(self))),
            sink_view(final(dom)@, *final(self)) == (if old(self).parents@.contains_key(element) {
                put_before(sink_view(old(dom)@, *old(self)), element, child)
            } else {
                put_last(sink_view(old(dom)@, *old(self)), prev_element, child)
            }),
    {
        if self.parents.contains_key(&element) {
            self.append_before(dom, element, child);
        } else {
            self.append_child(dom, prev_element, child);
        }
    }

    /// Creates an element. A `<template>` gets a fragment for its contents.
    pub fn create_element(&mut self, dom: &mut Dom, local: &str, attrs: &Vec<(String, String)>) -> (node:
        NodePtr)
        requires
            sink_ok(sink_view(old(dom)@, *old(self))),
            old(dom)@.len() < usize::MAX,
        ensures
            final(dom).wf(),
            sink_ok(sink_view(final(dom)@, *final(self))),
            node == old(dom)@.len(),
            sink_view(final(dom)@, *final(self)) == with_new_element(
                sink_view(old(dom)@, *old(self)),
                local@,
                attrs@,
            ),
    {
        let ghost w = sink_view(dom@, *self);
        let mut attributes = Attributes::new();
        let mut i: usize = 0;
        while i < attrs.len()
            invariant
                i <= attrs.len(),
                attributes@ == attribute_list(attrs@.take(i as int)),
            decreases attrs.len() - i,
        {
            proof {
                assert(attrs@.take(i + 1).drop_last() == attrs@.take(i as int));
                assert(attrs@.take(i + 1).last() == attrs@[i as int]);
            }
            let _ = attributes.insert(attrs[i].0.clone(), attrs[i].1.clone());
            i = i + 1;
        }
        assert(attrs@.take(i as int) == attrs@);
        let none: Vec<NodePtr> = Vec::new();
        assert(none@ =~= Seq::<NodePtr>::empty());
        let node: NodePtr = Node::element_with_attributes(dom, local, attributes, none);
        let ghost e = dom@;
        assert(e.len() == w.dom.len() + 1);
        if text_eq(local, "template") {
            let empty: Vec<NodePtr> = Vec::new();
            assert(empty@ =~= Seq::<NodePtr>::empty());
            let content: NodePtr = Node::document_fragment(dom, empty);
            assert(dom@.len() == e.len() + 1);
            let _ = self.template_contents.insert(node, content);
            set_template_contents(dom, node, Some(content));
        }
        assert(sink_view(dom@, *self) =~= with_new_element(w, local@, attrs@));
        node
    }

    /// The contents of a `<template>`; any other node stands for itself.
    pub fn get_template_contents(&self, target: NodePtr) -> (res: NodePtr)
        ensures
            res == (if self.template_contents@.contains_key(target) {
                self.template_contents@[target]
            } else {
                target
            }),
    {
        match self.template_contents.get(&target) {
            Some(n) => *n,
            None => target,
        }
    }

    /// Takes note of the mode of the document.
    pub fn set_quirks_mode(&mut self, mode: DocumentMode)
        ensures
            *final(self) == (AuroraTreeSink { mode, ..*old(self) }),
    {
        self.mode = mode;
    }

    /// Moves the children of `node` to the end of `new_parent`.
    pub fn reparent_children(&mut self, dom: &mut Dom, node: NodePtr, new_parent: NodePtr)
        requires
            sink_ok(sink_view(old(dom)@, *old(self))),
            node < old(dom)@.len(),
            new_parent < old(dom)@.len(),
        ensures
            final(dom).wf(),
            sink_ok(sink_view(final(dom)@, *final(self))),
            sink_view(final(dom)@, *final(self)) == put_all(
                (SinkView {
                    dom: rechilded(old(dom)@, node, Seq::empty()),
                    ..sink_view(old(dom)@, *old(self))
                }),
                new_parent,
                children_of(old(dom)@[node as int]),
            ),
    {
        let ghost d = dom@;
        proof {
            assert(node_ok(d[node as int], d.len()));
        }
        let kids = child_nodes(dom, node);
        let none: Vec<NodePtr> = Vec::new();
        assert(none@ =~= Seq::<NodePtr>::empty());
        set_children(dom, node, none);
        let ghost base = sink_view(dom@, *self);
        let mut i: usize = 0;
        while i < kids.len()
            invariant
                i <= kids.len(),
                sink_ok(sink_view(dom@, *self)),
                dom.wf(),
                dom@.len() == d.len(),
                new_parent < d.len(),
                links_ok(kids@, d.len()),
                sink_view(dom@, *self) == put_all(base, new_parent, kids@.take(i as int)),
            decreases kids.len() - i,
        {
            proof {
                assert(kids@.take(i + 1).drop_last() == kids@.take(i as int));
                assert(kids@.take(i + 1).last() == kids@[i as int]);
                assert(kids@[i as int] < d.len());
            }
            self.append_child(dom, new_parent, kids[i]);
            i = i + 1;
        }
        assert(kids@.take(i as int) == kids@);
    }

    /// The finished document: it gets its mode, and text of nothing but white
    /// space is dropped, except where white space is kept.
    pub fn finish(self, dom: &mut Dom) -> (document: NodePtr)
        requires
            sink_ok(sink_view(old(dom)@, self)),
            finite_from(old(dom)@, self.document, Reach::Children),
        ensures
            final(dom).wf(),
            document == self.document,
            final(dom)@ == pruned(
                old(dom)@.update(
                    self.document as int,
                    with_mode(old(dom)@[self.document as int], self.mode),
                ),
                self.document,
                false,
                old(dom)@.len(),
            ),
    {
        let ghost d = dom@;
        set_document_mode(dom, self.document, self.mode);
        proof {
            assert forall|i: int, j: int|
                0 <= i < d.len() && 0 <= j < children_of(dom@[i]).len() implies children_of(
                d[i],
            ).contains(#[trigger] children_of(dom@[i])[j]) by {
                assert(children_of(d[i])[j] == children_of(dom@[i])[j]);
            }
            lemma_fewer_children(d, dom@, self.document, d.len());
        }
        prune_whitespace_text(dom, self.document, false);
        self.document
    }
}

/// Gives `target` those attributes of the list that it does not have.
pub fn add_attrs_if_missing(dom: &mut Dom, target: NodePtr, attrs: &Vec<(String, String)>)
    requires
        old(dom).wf(),
        target < old(dom)@.len(),
    ensures
        final(dom).wf(),
        final(dom)@ == (match old(dom)@[target as int] {
            NodeView::Element(el) => old(dom)@.update(
                target as int,
                with_attributes(old(dom)@[target as int], completed(el.attributes, attrs@)),
            ),
            _ => old(dom)@,
        }),
{
    let ghost d = dom@;
    let is_element = match dom.node(target) {
        Node::Element(_) => true,
        _ => false,
    };
    if !is_element {
        return ;
    }
    let ghost el = d[target as int]->Element_0;
    let mut i: usize = 0;
    assert(dom@ =~= d.update(
        target as int,
        with_attributes(d[target as int], completed(el.attributes, attrs@.take(0))),
    ));
    while i < attrs.len()
        invariant
            i <= attrs.len(),
            dom.wf(),
            target < d.len(),
            d[target as int] == NodeView::Element(el),
            dom@ == d.update(
                target as int,
                with_attributes(d[target as int], completed(el.attributes, attrs@.take(i as int))),
            ),
        decreases attrs.len() - i,
    {
        proof {
            assert(attrs@.take(i + 1).drop_last() == attrs@.take(i as int));
            assert(attrs@.take(i + 1).last() == attrs@[i as int]);
        }
        let present = crate::dom::node::attribute(dom, target, attrs[i].0.as_str()).is_some();
        if !present {
            let _ = set_attribute(dom, target, attrs[i].0.as_str(), attrs[i].1.as_str());
        }
        assert(dom@ =~= d.update(
            target as int,
            with_attributes(d[target as int], completed(el.attributes, attrs@.take(i + 1))),
        ));
        i = i + 1;
    }
    assert(attrs@.take(i as int) == attrs@);
}

/// Whether no text below `n` is blank, except where white space is kept.
pub open spec fn tidy(d: DomView, n: NodePtr, told: bool, fuel: nat) -> bool
    decreases fuel,
{
    &&& fuel > 0
    &&& forall|i: int|
        0 <= i < children_of(d[n as int]).len() ==> {
            &&& keeps_space(d[n as int], told) || !is_blank_text(
                d[#[trigger] children_of(d[n as int])[i] as int],
            )
            &&& tidy(
                d,
                children_of(d[n as int])[i],
                keeps_space(d[n as int], told),
                (fuel - 1) as nat,
            )
        }
}

/// Whether the nodes of `e` are those of `d` with fewer children.
pub open spec fn trimmed(d: DomView, e: DomView) -> bool {
    &&& no_new_children(d, e)
    &&& forall|i: int| 0 <= i < d.len() ==> #[trigger] e[i] == with_children(d[i], children_of(e[i]))
}

proof fn lemma_trimmed_trans(d: DomView, e: DomView, f: DomView)
    requires
        trimmed(d, e),
        trimmed(e, f),
    ensures
        trimmed(d, f),
{
    lemma_no_new_trans(d, e, f);
    assert forall|i: int| 0 <= i < d.len() implies #[trigger] f[i] == with_children(
        d[i],
        children_of(f[i]),
    ) by {
        assert(e[i] == with_children(d[i], children_of(e[i])));
    }
}

proof fn lemma_tidy_stays(d: DomView, e: DomView, n: NodePtr, told: bool, fuel: nat)
    requires
        closed_links(d),
        n < d.len(),
        trimmed(d, e),
        tidy(d, n, told, fuel),
    ensures
        tidy(e, n, told, fuel),
    decreases fuel,
{
    let kids = children_of(d[n as int]);
    let left = children_of(e[n as int]);
    let keep = keeps_space(d[n as int], told);
    assert(e[n as int] == with_children(d[n as int], left));
    assert(node_ok(d[n as int], d.len()));
    assert forall|i: int| 0 <= i < left.len() implies (keep || !is_blank_text(
        e[#[trigger] left[i] as int],
    )) && tidy(e, left[i], keep, (fuel - 1) as nat) by {
        assert(kids.contains(left[i]));
        let j = choose|j: int| 0 <= j < kids.len() && kids[j] == left[i];
        assert(kids[j] < d.len());
        assert(e[left[i] as int] == with_children(
            d[left[i] as int],
            children_of(e[left[i] as int]),
        ));
        lemma_tidy_stays(d, e, kids[j], keep, (fuel - 1) as nat);
    }
}

proof fn lemma_unblanked_not_blank(d: DomView, kids: Seq<NodePtr>, i: int)
    requires
        0 <= i < unblanked(d, kids).len(),
    ensures
        !is_blank_text(d[unblanked(d, kids)[i] as int]),
    decreases kids.len(),
{
    let front = unblanked(d, kids.drop_last());
    if i < front.len() {
        lemma_unblanked_not_blank(d, kids.drop_last(), i);
    }
}

proof fn lemma_fewer_closed(d: DomView, e: DomView)
    requires
        closed_links(d),
        trimmed(d, e),
    ensures
        closed_links(e),
{
    assert forall|i: int| 0 <= i < e.len() implies node_ok(#[trigger] e[i], e.len()) by {
        assert(node_ok(d[i], d.len()));
        assert(e[i] == with_children(d[i], children_of(e[i])));
        assert forall|j: int| 0 <= j < children_of(e[i]).len() implies #[trigger] children_of(
            e[i],
        )[j] < e.len() by {
            assert(children_of(d[i]).contains(children_of(e[i])[j]));
            let k = choose|k: int|
                0 <= k < children_of(d[i]).len() && children_of(d[i])[k] == children_of(e[i])[j];
            assert(children_of(d[i])[k] < d.len());
        }
        assert(links_ok(children_of(e[i]), e.len()));
    }
}

proof fn lemma_pruned(d: DomView, n: NodePtr, told: bool, fuel: nat)
    requires
        closed_links(d),
        ends_within(d, n, Reach::Children, fuel),
    ensures
        trimmed(d, pruned(d, n, told, fuel)),
        tidy(pruned(d, n, told, fuel), n, told, fuel),
    decreases fuel, 1nat, 0nat,
{
    let keep = keeps_space(d[n as int], told);
    if !is_container(d[n as int]) {
        assert forall|i: int, j: int|
            0 <= i < d.len() && 0 <= j < children_of(d[i]).len() implies children_of(d[i]).contains(
            #[trigger] children_of(d[i])[j],
        ) by {}
    } else {
        let all = children_of(d[n as int]);
        let kids = kept_children(d, n, told);
        let base = rechilded(d, n, kids);
        lemma_unblanked(d, all);
        assert forall|i: int| 0 <= i < kids.len() implies all.contains(#[trigger] kids[i]) by {
            if keep {
                assert(all[i] == kids[i]);
            }
        }
        lemma_rechilded_fewer(d, n, kids);
        assert(trimmed(d, base));
        lemma_fewer_closed(d, base);
        assert forall|i: int| 0 <= i < kids.len() implies ends_within(
            base,
            #[trigger] kids[i],
            Reach::Children,
            (fuel - 1) as nat,
        ) by {
            let j = choose|j: int| 0 <= j < all.len() && all[j] == kids[i];
            assert(followed(d[n as int], Reach::Children)[j] == kids[i]);
            assert(ends_within(
                d,
                followed(d[n as int], Reach::Children)[j],
                Reach::Children,
                (fuel - 1) as nat,
            ));
            lemma_fewer_children(d, base, kids[i], (fuel - 1) as nat);
        }
        lemma_pruned_all(base, kids, keep, fuel);
        let r = pruned_all(base, kids, keep, fuel);
        lemma_trimmed_trans(d, base, r);
        let left = children_of(r[n as int]);
        assert(r[n as int] == with_children(d[n as int], left));
        assert forall|i: int| 0 <= i < left.len() implies (keep || !is_blank_text(
            r[#[trigger] left[i] as int],
        )) && tidy(r, left[i], keep, (fuel - 1) as nat) by {
            assert(children_of(base[n as int]).contains(children_of(r[n as int])[i]));
            let j = choose|j: int| 0 <= j < kids.len() && kids[j] == left[i];
            assert(tidy(r, kids[j], keep, (fuel - 1) as nat));
            assert(all.contains(kids[j]));
            let k = choose|k: int| 0 <= k < all.len() && all[k] == kids[j];
            assert(node_ok(d[n as int], d.len()));
            assert(all[k] < d.len());
            assert(r[left[i] as int] == with_children(
                d[left[i] as int],
                children_of(r[left[i] as int]),
            ));
            if !keep {
                lemma_unblanked_not_blank(d, all, j);
            }
        }
    }
}

proof fn lemma_pruned_all(d: DomView, kids: Seq<NodePtr>, told: bool, fuel: nat)
    requires
        fuel > 0,
        closed_links(d),
        forall|i: int|
            0 <= i < kids.len() ==> ends_within(
                d,
                #[trigger] kids[i],
                Reach::Children,
                (fuel - 1) as nat,
            ),
    ensures
        trimmed(d, pruned_all(d, kids, told, fuel)),
        forall|i: int|
            0 <= i < kids.len() ==> tidy(
                pruned_all(d, kids, told, fuel),
                #[trigger] kids[i],
                told,
                (fuel - 1) as nat,
            ),
    decreases fuel, 0nat, kids.len(),
{
    if kids.len() == 0 {
        assert forall|i: int, j: int|
            0 <= i < d.len() && 0 <= j < children_of(d[i]).len() implies children_of(d[i]).contains(
            #[trigger] children_of(d[i])[j],
        ) by {}
    } else {
        let front = kids.drop_last();
        let kid = kids.last();
        assert forall|i: int| 0 <= i < front.len() implies ends_within(
            d,
            #[trigger] front[i],
            Reach::Children,
            (fuel - 1) as nat,
        ) by {
            assert(front[i] == kids[i]);
        }
        lemma_pruned_all(d, front, told, fuel);
        let e = pruned_all(d, front, told, fuel);
        lemma_fewer_closed(d, e);
        assert(kids[kids.len() - 1] == kid);
        lemma_fewer_children(d, e, kid, (fuel - 1) as nat);
        lemma_pruned(e, kid, told, (fuel - 1) as nat);
        let r = pruned(e, kid, told, (fuel - 1) as nat);
        lemma_trimmed_trans(d, e, r);
        assert forall|i: int| 0 <= i < kids.len() implies tidy(
            r,
            #[trigger] kids[i],
            told,
            (fuel - 1) as nat,
        ) by {
            if i < front.len() {
                assert(front[i] == kids[i]);
                assert(tidy(e, front[i], told, (fuel - 1) as nat));
                assert(ends_within(d, kids[i], Reach::Children, (fuel - 1) as nat));
                lemma_tidy_stays(e, r, front[i], told, (fuel - 1) as nat);
            }
        }
    }
}

/// Pruning leaves no blank text, except where white space is kept, and changes
/// nothing else: nodes lose children at most.
pub proof fn law_pruning_leaves_no_blank_text(d: DomView, n: NodePtr, told: bool)
    requires
        closed_links(d),
        finite_from(d, n, Reach::Children),
    ensures
        tidy(pruned(d, n, told, d.len()), n, told, d.len()),
        trimmed(d, pruned(d, n, told, d.len())),
{
    lemma_pruned(d, n, told, d.len());
}

/// Text that is put behind text becomes part of it: the child list keeps its
/// length, and the text read is the same as if both had been kept apart.
pub proof fn law_adjacent_text_is_merged(d: DomView, p: NodePtr, c: NodePtr)
    requires
        closed_links(d),
        p < d.len(),
        merges(d, p, c),
    ensures
        children_of(appended(d, p, c)[p as int]) == children_of(d[p as int]),
        text_content(appended(d, p, c)[children_of(d[p as int]).last() as int]) == Some(
            text_content(d[children_of(d[p as int]).last() as int])->0 + text_content(
                d[c as int],
            )->0,
        ),
{
    let kids = children_of(d[p as int]);
    assert(node_ok(d[p as int], d.len()));
    assert(kids[kids.len() - 1] < d.len());
}

} // verus!
