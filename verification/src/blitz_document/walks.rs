//! Tests of whether walks through the renderer's tree end.
//!
//! The renderer hands over a view of its tree. Where that view is not known to
//! be a tree, the tests here say so before it is walked.

use crate::blitz_document::lookup::{ascent_ends, ascent_is_finite, descent_ends, parent_at};
use crate::blitz_document::render::{node_at, RenderData, RenderNode, RenderTree};
use crate::blitz_document::summary::{all_present, counted, counted_all, lemma_counted_prefix};
use vstd::prelude::*;

verus! {

/// Whether the walk up from a rendered node ends.
pub fn is_ascent_finite(tree: &RenderTree, id: usize) -> (res: bool)
    ensures
        res == ascent_is_finite(tree@, id),
{
    let mut current: usize = id;
    let mut more: usize = tree.nodes.len();
    loop
        invariant
            ascent_ends(tree@, current, (more + 1) as nat) == ascent_is_finite(tree@, id),
        decreases more,
    {
        let parent = match tree.get_node(current) {
            Some(node) => node.parent,
            None => None,
        };
        match parent {
            Some(p) => {
                assert(parent_at(tree@, current) == Some(p));
                if more == 0 {
                    assert(!ascent_ends(tree@, p, 0));
                    return false;
                }
                current = p;
                more = more - 1;
            },
            None => {
                return true;
            },
        }
    }
}

fn descends_within(tree: &RenderTree, id: usize, more: usize) -> (res: bool)
    ensures
        res == descent_ends(tree@, id, (more + 1) as nat),
    decreases more,
{
    let node: &RenderNode = match tree.get_node(id) {
        Some(node) => node,
        None => {
            return true;
        },
    };
    let ghost kids = node@.children;
    if more == 0 {
        if node.children.len() > 0 {
            assert(!descent_ends(tree@, kids[0], 0));
            return false;
        }
        return true;
    }
    let mut i: usize = 0;
    while i < node.children.len()
        invariant
            i <= node.children.len(),
            more > 0,
            node_at(tree@, id) == Some(node@),
            kids == node@.children,
            kids == node.children@,
            forall|j: int| 0 <= j < i ==> descent_ends(tree@, #[trigger] kids[j], more as nat),
        decreases node.children.len() - i,
    {
        if !descends_within(tree, node.children[i], more - 1) {
            assert(!descent_ends(tree@, kids[i as int], more as nat));
            return false;
        }
        i = i + 1;
    }
    true
}

/// Whether the walk down from a rendered node ends.
pub fn is_descent_finite(tree: &RenderTree, id: usize) -> (res: bool)
    ensures
        res == descent_ends(tree@, id, tree@.len() + 1),
{
    descends_within(tree, id, tree.nodes.len())
}

fn present_within(tree: &RenderTree, id: usize, fuel: usize) -> (res: bool)
    ensures
        res == all_present(tree@, id, fuel as nat),
    decreases fuel,
{
    if fuel == 0 {
        return false;
    }
    let node: &RenderNode = match tree.get_node(id) {
        Some(node) => node,
        None => {
            return false;
        },
    };
    if let RenderData::Text(_) = node.data {
        return true;
    }
    let ghost kids = node@.children;
    let mut i: usize = 0;
    while i < node.children.len()
        invariant
            i <= node.children.len(),
            fuel > 0,
            node_at(tree@, id) == Some(node@),
            !(node@.data is Text),
            kids == node@.children,
            kids == node.children@,
            forall|j: int|
                0 <= j < i ==> all_present(tree@, #[trigger] kids[j], (fuel - 1) as nat),
        decreases node.children.len() - i,
    {
        if !present_within(tree, node.children[i], fuel - 1) {
            assert(!all_present(tree@, kids[i as int], (fuel - 1) as nat));
            return false;
        }
        i = i + 1;
    }
    true
}

/// What is left of `room` after every node at and below `id` took one.
fn room_left(tree: &RenderTree, id: usize, room: usize, Ghost(fuel): Ghost<nat>) -> (res: Option<
    usize,
>)
    requires
        all_present(tree@, id, fuel),
    ensures
        res matches Some(left) ==> counted(tree@, id, fuel).total + left == room,
        res is None ==> counted(tree@, id, fuel).total > room,
    decreases fuel,
{
    let node: &RenderNode = match tree.get_node(id) {
        Some(node) => node,
        None => {
            return Some(room);
        },
    };
    if room == 0 {
        return None;
    }
    let mut left: usize = room - 1;
    if let RenderData::Text(_) = node.data {
        return Some(left);
    }
    let mut i: usize = 0;
    while i < node.children.len()
        invariant
            i <= node.children.len(),
            node_at(tree@, id) == Some(node@),
            !(node@.data is Text),
            all_present(tree@, id, fuel),
            1 + counted_all(tree@, node.children@.take(i as int), fuel).total + left == room,
        decreases node.children.len() - i,
    {
        proof {
            let kids = node.children@;
            assert(kids.take(i + 1).drop_last() == kids.take(i as int));
            assert(kids.take(i + 1).last() == kids[i as int]);
            assert(node@.children[i as int] == kids[i as int]);
            lemma_counted_prefix(tree@, kids, fuel, i + 1);
        }
        match room_left(tree, node.children[i], left, Ghost((fuel - 1) as nat)) {
            Some(rest) => {
                left = rest;
            },
            None => {
                return None;
            },
        }
        i = i + 1;
    }
    assert(node.children@.take(i as int) == node.children@);
    Some(left)
}

/// Whether everything rendered at and below `root` is there and can be counted.
pub fn is_countable(tree: &RenderTree, root: usize) -> (res: bool)
    ensures
        res == (all_present(tree@, root, tree@.len()) && counted(tree@, root, tree@.len()).total
            <= usize::MAX),
{
    present_within(tree, root, tree.nodes.len()) && room_left(
        tree,
        root,
        usize::MAX,
        Ghost(tree@.len()),
    ).is_some()
}

} // verus!
