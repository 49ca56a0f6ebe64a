//! Carrying inserted nodes over to the renderer.
//!
//! Nodes that are rendered elsewhere leave first. Then, if their parent is
//! rendered, they are inserted from the last one to the first, each before the
//! next sibling that is rendered.

use crate::blitz_document::document::BlitzDocument;
use crate::dom::node::{child_nodes, children_of, Dom, DomView, NodePtr};
use crate::js::mutation::{index_in, position_of};
use vstd::prelude::*;

verus! {

broadcast use vstd::std_specs::btree::group_btree_axioms;

/// What has to be done next.
#[derive(Debug, Clone, Copy, PartialEq, Eq, Structural)]
pub enum SyncStep {
    /// The rendered node of a node is removed.
    Remove(NodePtr),
    /// A node is inserted, before another one or at the end.
    Insert(NodePtr, Option<NodePtr>),
    /// Nothing.
    Done,
}

/// The first node of a list that is rendered.
pub open spec fn first_rendered(list: Seq<NodePtr>, to_blitz: Map<usize, usize>) -> Option<NodePtr>
    decreases list.len(),
{
    if list.len() == 0 {
        None
    } else if to_blitz.contains_key(list[0]) {
        Some(list[0])
    } else {
        first_rendered(list.drop_first(), to_blitz)
    }
}

/// The next sibling of `node` below `parent` that is rendered.
pub open spec fn next_rendered(
    d: DomView,
    to_blitz: Map<usize, usize>,
    parent: NodePtr,
    node: NodePtr,
) -> Option<NodePtr> {
    let kids = children_of(d[parent as int]);
    if kids.contains(node) {
        first_rendered(kids.skip(index_in(kids, node) as int + 1), to_blitz)
    } else {
        None
    }
}

/// The next sibling of `node` below `parent` that is rendered.
pub fn next_render_mapped_sibling(
    dom: &Dom,
    document: &BlitzDocument,
    parent: NodePtr,
    node: NodePtr,
) -> (res: Option<NodePtr>)
    requires
        parent < dom@.len(),
    ensures
        res == next_rendered(dom@, document@.to_blitz, parent, node),
{
    let kids = child_nodes(dom, parent);
    let at: usize = position_of(&kids, node);
    if at == kids.len() {
        return None;
    }
    let mut i: usize = at + 1;
    while i < kids.len()
        invariant
            at < i <= kids.len(),
            parent < dom@.len(),
            kids@ == children_of(dom@[parent as int]),
            kids@.contains(node),
            at == index_in(kids@, node),
            first_rendered(kids@.skip(at + 1), document@.to_blitz) == first_rendered(
                kids@.skip(i as int),
                document@.to_blitz,
            ),
        decreases kids.len() - i,
    {
        proof {
            assert(kids@.skip(i as int)[0] == kids@[i as int]);
            assert(kids@.skip(i as int).drop_first() == kids@.skip(i + 1));
        }
        if document.blitz_node_id_for_dom(kids[i]).is_some() {
            return Some(kids[i]);
        }
        i = i + 1;
    }
    None
}

/// How far the nodes of an insertion have been carried over.
#[derive(Debug)]
pub struct InsertSync {
    pub parent: NodePtr,
    pub nodes: Vec<NodePtr>,
    /// Whether the parent was rendered at the start.
    pub parent_is_mirrored: bool,
    /// How many nodes have been taken out, where they were rendered.
    pub taken_out: usize,
    /// How many nodes have yet to be inserted.
    pub to_insert: usize,
}

/// Whether the progress of an insertion makes sense.
pub open spec fn progress_ok(s: InsertSync) -> bool {
    s.taken_out <= s.nodes@.len() && s.to_insert <= s.nodes@.len()
}

/// How many nodes of a list come before the first rendered one.
pub open spec fn unrendered_prefix(list: Seq<NodePtr>, to_blitz: Map<usize, usize>) -> nat
    decreases list.len(),
{
    if list.len() == 0 || to_blitz.contains_key(list[0]) {
        0
    } else {
        1 + unrendered_prefix(list.drop_first(), to_blitz)
    }
}

/// The next step of an insertion.
pub open spec fn next_step_of(s: InsertSync, d: DomView, to_blitz: Map<usize, usize>) -> SyncStep {
    match first_rendered(s.nodes@.skip(s.taken_out as int), to_blitz) {
        Some(n) => SyncStep::Remove(n),
        None => if s.parent_is_mirrored && s.to_insert > 0 {
            let n = s.nodes@[s.to_insert - 1];
            SyncStep::Insert(n, next_rendered(d, to_blitz, s.parent, n))
        } else {
            SyncStep::Done
        },
    }
}

impl InsertSync {
    /// An insertion of nodes below `parent`.
    pub fn new(document: &BlitzDocument, parent: NodePtr, nodes: Vec<NodePtr>) -> (res: Self)
        ensures
            progress_ok(res),
            res.parent == parent,
            res.nodes@ == nodes@,
            res.parent_is_mirrored == document@.to_blitz.contains_key(parent),
            res.taken_out == 0,
            res.to_insert == nodes@.len(),
    {
        let to_insert: usize = nodes.len();
        let parent_is_mirrored = document.blitz_node_id_for_dom(parent).is_some();
        InsertSync { parent, nodes, parent_is_mirrored, taken_out: 0, to_insert }
    }

    /// The next step, if the one before it succeeded.
    pub fn next(&mut self, dom: &Dom, document: &BlitzDocument) -> (res: SyncStep)
        requires
            progress_ok(*old(self)),
            old(self).parent < dom@.len(),
        ensures
            progress_ok(*final(self)),
            res == next_step_of(*old(self), dom@, document@.to_blitz),
            final(self).parent == old(self).parent,
            final(self).nodes@ == old(self).nodes@,
            final(self).parent_is_mirrored == old(self).parent_is_mirrored,
            final(self).taken_out == (if res is Remove {
                old(self).taken_out + unrendered_prefix(
                    old(self).nodes@.skip(old(self).taken_out as int),
                    document@.to_blitz,
                ) + 1
            } else {
                old(self).nodes@.len() as int
            }),
            final(self).to_insert == (if res is Insert {
                old(self).to_insert - 1
            } else {
                old(self).to_insert as int
            }),
    {
        let ghost start = self.taken_out as int;
        let ghost list = self.nodes@;
        let ghost map = document@.to_blitz;
        while self.taken_out < self.nodes.len()
            invariant
                list == self.nodes@,
                map == document@.to_blitz,
                start <= self.taken_out <= list.len(),
                0 <= start,
                self.parent == old(self).parent,
                self.parent_is_mirrored == old(self).parent_is_mirrored,
                self.to_insert == old(self).to_insert,
                progress_ok(*old(self)),
                list == old(self).nodes@,
                start == old(self).taken_out,
                first_rendered(list.skip(start), map) == first_rendered(
                    list.skip(self.taken_out as int),
                    map,
                ),
                unrendered_prefix(list.skip(start), map) == (self.taken_out - start)
                    + unrendered_prefix(list.skip(self.taken_out as int), map),
            decreases self.nodes.len() - self.taken_out,
        {
            let n: NodePtr = self.nodes[self.taken_out];
            proof {
                let rest = list.skip(self.taken_out as int);
                assert(rest[0] == n);
                assert(rest.drop_first() == list.skip(self.taken_out + 1));
            }
            self.taken_out = self.taken_out + 1;
            if document.blitz_node_id_for_dom(n).is_some() {
                return SyncStep::Remove(n);
            }
        }
        if !self.parent_is_mirrored || self.to_insert == 0 {
            return SyncStep::Done;
        }
        self.to_insert = self.to_insert - 1;
        let n: NodePtr = self.nodes[self.to_insert];
        SyncStep::Insert(n, next_render_mapped_sibling(dom, document, self.parent, n))
    }
}

} // verus!
