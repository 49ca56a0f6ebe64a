//! The mutations that the insertion methods of a node come down to.

use crate::dom::node::{child_nodes, children_of, is_document_fragment, is_fragment, Dom, DomView,
    NodePtr};
use crate::js::dispatch::DomMutation;
use crate::js::nodes::{element_children, elements_among, find_parent_for, parent_lookup_ends,
    script_parent, sibling, sibling_for_node};
use crate::text::{lowercase, text_eq, to_ascii_lowercase};
use vstd::prelude::*;

verus! {

/// Mutations to apply in order. Layout is dirty afterwards.
#[derive(Debug)]
pub struct Placement {
    pub mutations: Vec<DomMutation<'static>>,
}

/// Appends the nodes one after the other.
pub open spec fn appends(parent: NodePtr, nodes: Seq<NodePtr>) -> Seq<DomMutation<'static>> {
    nodes.map_values(|n: NodePtr| DomMutation::AppendChild { parent, child: n })
}

/// Prepends the nodes, the last one first, so that they end up in order.
pub open spec fn prepends(parent: NodePtr, nodes: Seq<NodePtr>) -> Seq<DomMutation<'static>> {
    nodes.reverse().map_values(|n: NodePtr| DomMutation::PrependChild { parent, child: n })
}

/// Inserts the nodes before `at`, or at the end if there is no such node.
pub open spec fn inserts(parent: NodePtr, nodes: Seq<NodePtr>, at: Option<NodePtr>) -> Seq<
    DomMutation<'static>,
> {
    nodes.map_values(
        |n: NodePtr| DomMutation::InsertBefore { parent, new_child: n, ref_child: at },
    )
}

fn insert_all(parent: NodePtr, nodes: &Vec<NodePtr>, at: Option<NodePtr>) -> (res: Vec<
    DomMutation<'static>,
>)
    ensures
        res@ == inserts(parent, nodes@, at),
{
    let mut res: Vec<DomMutation<'static>> = Vec::new();
    let mut i: usize = 0;
    while i < nodes.len()
        invariant
            i <= nodes.len(),
            res@ == inserts(parent, nodes@.take(i as int), at),
        decreases nodes.len() - i,
    {
        res.push(DomMutation::InsertBefore { parent, new_child: nodes[i], ref_child: at });
        i = i + 1;
        assert(res@ =~= inserts(parent, nodes@.take(i as int), at));
    }
    assert(nodes@.take(i as int) =~= nodes@);
    res
}

/// `node.append(..)`: the nodes become the last children.
pub fn append_children(parent: NodePtr, nodes: &Vec<NodePtr>) -> (res: Placement)
    ensures
        res.mutations@ == appends(parent, nodes@),
{
    let mut mutations: Vec<DomMutation<'static>> = Vec::new();
    let mut i: usize = 0;
    while i < nodes.len()
        invariant
            i <= nodes.len(),
            mutations@ == appends(parent, nodes@.take(i as int)),
        decreases nodes.len() - i,
    {
        mutations.push(DomMutation::AppendChild { parent, child: nodes[i] });
        i = i + 1;
        assert(mutations@ =~= appends(parent, nodes@.take(i as int)));
    }
    assert(nodes@.take(i as int) =~= nodes@);
    Placement { mutations }
}

/// `node.prepend(..)`: the nodes become the first children.
pub fn prepend_children(parent: NodePtr, nodes: &Vec<NodePtr>) -> (res: Placement)
    ensures
        res.mutations@ == prepends(parent, nodes@),
{
    let mut mutations: Vec<DomMutation<'static>> = Vec::new();
    let mut i: usize = nodes.len();
    while i > 0
        invariant
            i <= nodes.len(),
            mutations@ == prepends(parent, nodes@.skip(i as int)),
        decreases i,
    {
        i = i - 1;
        mutations.push(DomMutation::PrependChild { parent, child: nodes[i] });
        assert(mutations@ =~= prepends(parent, nodes@.skip(i as int)));
    }
    assert(nodes@.skip(0) =~= nodes@);
    Placement { mutations }
}

/// `node.replaceChildren(..)`: the nodes become the only children.
pub fn replace_children(node: NodePtr, nodes: Vec<NodePtr>) -> (res: Placement)
    ensures
        res.mutations@ == seq![
            DomMutation::ReplaceChildren { node, children: nodes },
        ],
{
    let mut mutations: Vec<DomMutation<'static>> = Vec::new();
    mutations.push(DomMutation::ReplaceChildren { node, children: nodes });
    assert(mutations@ =~= seq![DomMutation::ReplaceChildren { node, children: nodes }]);
    Placement { mutations }
}

/// `node.before(..)` and `node.after(..)`: the nodes become siblings. Nothing
/// happens to a node without a parent.
pub fn insert_relative_to_self(dom: &mut Dom, node: NodePtr, nodes: &Vec<NodePtr>, after: bool) -> (res:
    Option<Placement>)
    requires
        old(dom).wf(),
        node < old(dom)@.len(),
        parent_lookup_ends(old(dom)@, node),
    ensures
        final(dom).wf(),
        ({
            let (e, parent) = script_parent(old(dom)@, node);
            &&& final(dom)@ == e
            &&& match (res, parent) {
                (Some(placement), Some(p)) => placement.mutations@ == inserts(
                    p,
                    nodes@,
                    if after {
                        sibling(e, node, 1, false)
                    } else {
                        Some(node)
                    },
                ),
                (None, None) => true,
                _ => false,
            }
        }),
{
    match find_parent_for(dom, node) {
        Some(parent) => {
            let at = if after {
                sibling_for_node(dom, node, 1, false)
            } else {
                Some(node)
            };
            Some(Placement { mutations: insert_all(parent, nodes, at) })
        },
        None => None,
    }
}

/// What `node.replaceWith(..)` comes down to: the nodes are inserted before the
/// node, which then leaves its parent.
pub open spec fn replacement(d: DomView, n: NodePtr, nodes: Seq<NodePtr>) -> Seq<
    DomMutation<'static>,
> {
    let (e, first) = script_parent(d, n);
    let (f, second) = script_parent(e, n);
    (match second {
        Some(p) => inserts(p, nodes, Some(n)),
        None => Seq::empty(),
    }) + (match first {
        Some(p) => seq![DomMutation::RemoveChild { parent: p, child: n }],
        None => Seq::empty(),
    })
}

/// `node.replaceWith(..)`: the nodes take the place of the node.
pub fn replace_with(dom: &mut Dom, node: NodePtr, nodes: &Vec<NodePtr>) -> (res: Placement)
    requires
        old(dom).wf(),
        node < old(dom)@.len(),
        parent_lookup_ends(old(dom)@, node),
        parent_lookup_ends(script_parent(old(dom)@, node).0, node),
    ensures
        final(dom).wf(),
        final(dom)@ == script_parent(script_parent(old(dom)@, node).0, node).0,
        res.mutations@ == replacement(old(dom)@, node, nodes@),
{
    let ghost d = dom@;
    let parent = find_parent_for(dom, node);
    let mut mutations: Vec<DomMutation<'static>> = match insert_relative_to_self(
        dom,
        node,
        nodes,
        false,
    ) {
        Some(placement) => placement.mutations,
        None => Vec::new(),
    };
    let ghost inserted = mutations@;
    if let Some(p) = parent {
        mutations.push(DomMutation::RemoveChild { parent: p, child: node });
    }
    assert(mutations@ =~= replacement(d, node, nodes@));
    Placement { mutations }
}

/// The places that `insertAdjacent..` knows.
#[derive(Clone, Copy, Debug, PartialEq, Eq, Structural)]
pub enum Position {
    BeforeBegin,
    AfterBegin,
    BeforeEnd,
    AfterEnd,
}

/// The place with that name, in any case.
pub open spec fn position_named(name: Seq<char>) -> Option<Position> {
    let s = lowercase(name);
    if s == "beforebegin"@ {
        Some(Position::BeforeBegin)
    } else if s == "afterbegin"@ {
        Some(Position::AfterBegin)
    } else if s == "beforeend"@ {
        Some(Position::BeforeEnd)
    } else if s == "afterend"@ {
        Some(Position::AfterEnd)
    } else {
        None
    }
}

fn parse_position(name: &str) -> (res: Option<Position>)
    ensures
        res == position_named(name@),
{
    let s = to_ascii_lowercase(name);
    if text_eq(s.as_str(), "beforebegin") {
        Some(Position::BeforeBegin)
    } else if text_eq(s.as_str(), "afterbegin") {
        Some(Position::AfterBegin)
    } else if text_eq(s.as_str(), "beforeend") {
        Some(Position::BeforeEnd)
    } else if text_eq(s.as_str(), "afterend") {
        Some(Position::AfterEnd)
    } else {
        None
    }
}

/// The arena after the parent of `n` was looked up where the place needs it,
/// and the mutations that insert the nodes at the place.
pub open spec fn adjacent(d: DomView, n: NodePtr, position: Seq<char>, nodes: Seq<NodePtr>) -> (
    DomView,
    Option<Seq<DomMutation<'static>>>,
) {
    match position_named(position) {
        None => (d, None),
        Some(Position::AfterBegin) => (d, Some(prepends(n, nodes))),
        Some(Position::BeforeEnd) => (d, Some(appends(n, nodes))),
        Some(Position::BeforeBegin) => {
            let (e, parent) = script_parent(d, n);
            (
                e,
                match parent {
                    Some(p) => Some(inserts(p, nodes, Some(n))),
                    None => None,
                },
            )
        },
        Some(Position::AfterEnd) => {
            let (e, parent) = script_parent(d, n);
            (
                e,
                match parent {
                    Some(p) => Some(inserts(p, nodes, sibling(e, n, 1, false))),
                    None => None,
                },
            )
        },
    }
}

/// `node.insertAdjacent..(position, ..)`. Nothing is inserted at an unknown
/// place, nor next to a node without a parent.
pub fn insert_nodes_at_position(
    dom: &mut Dom,
    node: NodePtr,
    position: &str,
    nodes: &Vec<NodePtr>,
) -> (res: Option<Placement>)
    requires
        old(dom).wf(),
        node < old(dom)@.len(),
        parent_lookup_ends(old(dom)@, node),
    ensures
        final(dom).wf(),
        final(dom)@ == adjacent(old(dom)@, node, position@, nodes@).0,
        match (res, adjacent(old(dom)@, node, position@, nodes@).1) {
            (Some(placement), Some(mutations)) => placement.mutations@ == mutations,
            (None, None) => true,
            _ => false,
        },
{
    match parse_position(position) {
        None => None,
        Some(Position::BeforeBegin) => insert_relative_to_self(dom, node, nodes, false),
        Some(Position::AfterBegin) => Some(prepend_children(node, nodes)),
        Some(Position::BeforeEnd) => Some(append_children(node, nodes)),
        Some(Position::AfterEnd) => insert_relative_to_self(dom, node, nodes, true),
    }
}

/// The nodes that are made known to the custom-element tracker after an
/// insertion.
#[derive(Debug, PartialEq, Eq)]
pub enum Tracking {
    /// The object that was handed in.
    Argument,
    /// The elements that a fragment brought.
    Nodes(Vec<NodePtr>),
}

/// What is made known of `child` after it is inserted: the elements in a
/// fragment that is not empty, the object itself otherwise.
pub fn tracking_for(dom: &Dom, child: NodePtr) -> (res: Tracking)
    requires
        dom.wf(),
        child < dom@.len(),
    ensures
        match res {
            Tracking::Nodes(nodes) => {
                &&& is_fragment(dom@[child as int])
                &&& children_of(dom@[child as int]).len() > 0
                &&& nodes@ == elements_among(dom@, children_of(dom@[child as int]))
            },
            Tracking::Argument => !is_fragment(dom@[child as int]) || children_of(
                dom@[child as int],
            ).len() == 0,
        },
{
    if is_document_fragment(dom, child) && child_nodes(dom, child).len() > 0 {
        Tracking::Nodes(element_children(dom, child))
    } else {
        Tracking::Argument
    }
}

/// What setting a reflected attribute comes down to: the empty string removes
/// the attribute.
pub fn reflect_attribute<'a>(node: NodePtr, name: &'a str, value: &'a str) -> (res: DomMutation<'a>)
    ensures
        res == (if value@.len() == 0 {
            DomMutation::RemoveAttribute { node, name }
        } else {
            DomMutation::SetAttribute { node, name, value }
        }),
{
    let empty = text_eq(value, "");
    proof {
        reveal_strlit("");
        if value@.len() == 0 {
            assert(value@ =~= ""@);
        }
    }
    if empty {
        DomMutation::RemoveAttribute { node, name }
    } else {
        DomMutation::SetAttribute { node, name, value }
    }
}

} // verus!
