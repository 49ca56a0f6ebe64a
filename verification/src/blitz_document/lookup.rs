//! Finding nodes of the document through the renderer's tree.
//!
//! What the renderer computes, such as the ids that match a selector or the
//! node under a point, comes in as an argument.

use crate::blitz_document::document::{BlitzDocument, BlitzState};
use crate::blitz_document::render::{element_of, node_at, value_of, RenderNodeView, RenderTree,
    RenderView};
use crate::dom::node::{is_element_node, Dom, DomView, NodePtr};
use crate::dom::shadow::{climb_ends, is_root_at, nearest_root, ShadowTreeBackend,
    SyntheticShadowTreeBackend};
use crate::text::{eq_ignore_ascii_case, same_ignoring_case, text_eq};
use vstd::prelude::*;

verus! {

broadcast use vstd::std_specs::btree::group_btree_axioms;

/// Whether a query from `start` may return `found`: both lie in the same
/// shadow tree, or in none.
pub open spec fn can_see(d: DomView, start: NodePtr, found: NodePtr) -> bool {
    nearest_root(d, start, d.len()) == nearest_root(d, found, d.len())
}

pub fn query_can_see(dom: &Dom, start: NodePtr, found: NodePtr) -> (res: bool)
    requires
        dom.wf(),
        climb_ends(dom@, start, dom@.len()),
        climb_ends(dom@, found, dom@.len()),
    ensures
        res == can_see(dom@, start, found),
{
    let backend = SyntheticShadowTreeBackend;
    match (backend.nearest_shadow_root(dom, start), backend.nearest_shadow_root(dom, found)) {
        (Some(a), Some(b)) => a == b,
        (None, None) => true,
        _ => false,
    }
}

/// The parent of a rendered node.
pub open spec fn parent_at(t: RenderView, id: usize) -> Option<usize> {
    match node_at(t, id) {
        Some(node) => node.parent,
        None => None,
    }
}

fn render_parent(tree: &RenderTree, id: usize) -> (res: Option<usize>)
    ensures
        res == parent_at(tree@, id),
{
    match tree.get_node(id) {
        Some(node) => node.parent,
        None => None,
    }
}

/// Whether the walk up from `id` ends within `fuel` steps.
pub open spec fn ascent_ends(t: RenderView, id: usize, fuel: nat) -> bool
    decreases fuel,
{
    fuel > 0 && (parent_at(t, id) matches Some(p) ==> ascent_ends(t, p, (fuel - 1) as nat))
}

/// Whether the walk up from `id` ends. One without repetition meets every node
/// at most once and one missing node at its end.
pub open spec fn ascent_is_finite(t: RenderView, id: usize) -> bool {
    ascent_ends(t, id, t.len() + 1)
}

/// Whether `id` is `ancestor` or lies below it.
pub open spec fn lies_under(t: RenderView, id: usize, ancestor: usize, fuel: nat) -> bool
    decreases fuel,
{
    fuel > 0 && (id == ancestor || (parent_at(t, id) matches Some(p) && lies_under(
        t,
        p,
        ancestor,
        (fuel - 1) as nat,
    )))
}

pub fn blitz_is_descendant_or_self(tree: &RenderTree, node_id: usize, ancestor_id: usize) -> (res: bool)
    requires
        ascent_is_finite(tree@, node_id),
    ensures
        res == lies_under(tree@, node_id, ancestor_id, tree@.len() + 1),
{
    let mut current: usize = node_id;
    let ghost mut fuel: nat = tree@.len() + 1;
    loop
        invariant
            ascent_ends(tree@, current, fuel),
            lies_under(tree@, current, ancestor_id, fuel) == lies_under(
                tree@,
                node_id,
                ancestor_id,
                tree@.len() + 1,
            ),
        decreases fuel,
    {
        if current == ancestor_id {
            return true;
        }
        match render_parent(tree, current) {
            Some(p) => {
                current = p;
                proof {
                    fuel = (fuel - 1) as nat;
                }
            },
            None => {
                return false;
            },
        }
    }
}

/// The node at `id` or at the nearest rendered node above it that stands for
/// one. The walk stops where the renderer has no node.
pub open spec fn node_at_or_above(s: BlitzState, t: RenderView, id: usize, fuel: nat) -> Option<NodePtr>
    decreases fuel,
{
    if fuel == 0 {
        None
    } else if s.to_legacy.contains_key(id) {
        Some(s.to_legacy[id])
    } else {
        match parent_at(t, id) {
            Some(p) => node_at_or_above(s, t, p, (fuel - 1) as nat),
            None => None,
        }
    }
}

/// The target of the link at `id` or above it.
pub open spec fn link_at_or_above(t: RenderView, id: usize, fuel: nat) -> Option<Seq<char>>
    decreases fuel,
{
    if fuel == 0 {
        None
    } else {
        match node_at(t, id) {
            Some(node) => if (element_of(node.data) matches Some(el) && el.name.local == "a"@)
                && value_of(node.data, "href"@) is Some {
                value_of(node.data, "href"@)
            } else {
                match node.parent {
                    Some(p) => link_at_or_above(t, p, (fuel - 1) as nat),
                    None => None,
                }
            },
            None => None,
        }
    }
}

/// The target of the nearest `<a href>` at or above the node under a point.
pub fn hit_test_anchor(tree: &RenderTree, hit: Option<usize>) -> (res: Option<String>)
    requires
        hit matches Some(id) ==> ascent_is_finite(tree@, id),
    ensures
        match (hit, res) {
            (Some(id), Some(href)) => link_at_or_above(tree@, id, tree@.len() + 1) == Some(href@),
            (Some(id), None) => link_at_or_above(tree@, id, tree@.len() + 1) is None,
            (None, r) => r is None,
        },
{
    let start: usize = match hit {
        Some(id) => id,
        None => {
            return None;
        },
    };
    let mut current: usize = start;
    let ghost mut fuel: nat = tree@.len() + 1;
    loop
        invariant
            ascent_ends(tree@, current, fuel),
            hit == Some(start),
            link_at_or_above(tree@, current, fuel) == link_at_or_above(
                tree@,
                start,
                tree@.len() + 1,
            ),
        decreases fuel,
    {
        let node = match tree.get_node(current) {
            Some(node) => node,
            None => {
                return None;
            },
        };
        if let Some(el) = node.data.downcast_element() {
            if text_eq(el.name.local.as_str(), "a") {
                if let Some(href) = node.data.attr("href") {
                    return Some(href.clone());
                }
            }
        }
        match node.parent {
            Some(p) => {
                current = p;
                proof {
                    fuel = (fuel - 1) as nat;
                }
            },
            None => {
                return None;
            },
        }
    }
}

/// The nodes among `matches` that a query from `start` returns, in order.
pub open spec fn query_results(
    s: BlitzState,
    d: DomView,
    t: RenderView,
    matches: Seq<usize>,
    start: NodePtr,
) -> Seq<NodePtr>
    decreases matches.len(),
{
    if matches.len() == 0 {
        Seq::empty()
    } else {
        let before = query_results(s, d, t, matches.drop_last(), start);
        if is_result(s, d, t, matches.last(), start) {
            before.push(s.to_legacy[matches.last()])
        } else {
            before
        }
    }
}

/// Whether a query from `start` returns the node of the matching `id`.
pub open spec fn is_result(
    s: BlitzState,
    d: DomView,
    t: RenderView,
    id: usize,
    start: NodePtr,
) -> bool {
    &&& lies_under(t, id, s.to_blitz[start], t.len() + 1)
    &&& s.to_legacy.contains_key(id)
    &&& d[s.to_legacy[id] as int] is Element
    &&& can_see(d, start, s.to_legacy[id])
}

/// Whether every walk that a query makes ends.
pub open spec fn query_ready(
    s: BlitzState,
    d: DomView,
    t: RenderView,
    matches: Seq<usize>,
    start: NodePtr,
) -> bool {
    &&& climb_ends(d, start, d.len())
    &&& forall|i: int|
        0 <= i < matches.len() ==> {
            let id = #[trigger] matches[i];
            ascent_is_finite(t, id) && (s.to_legacy.contains_key(id) ==> climb_ends(
                d,
                s.to_legacy[id],
                d.len(),
            ))
        }
}

impl BlitzDocument {
    fn result_of(&self, dom: &Dom, tree: &RenderTree, id: usize, start: NodePtr, start_id: usize) -> (res:
        Option<NodePtr>)
        requires
            dom.wf(),
            self@.to_blitz.contains_key(start),
            self@.to_blitz[start] == start_id,
            climb_ends(dom@, start, dom@.len()),
            ascent_is_finite(tree@, id),
            self@.to_legacy.contains_key(id) ==> climb_ends(
                dom@,
                self@.to_legacy[id],
                dom@.len(),
            ),
        ensures
            match res {
                Some(n) => is_result(self@, dom@, tree@, id, start) && n == self@.to_legacy[id],
                None => !is_result(self@, dom@, tree@, id, start),
            },
    {
        if !blitz_is_descendant_or_self(tree, id, start_id) {
            return None;
        }
        match self.dom_node_for_blitz_id(id) {
            Some(n) => if is_element_node(dom, n) && query_can_see(dom, start, n) {
                Some(n)
            } else {
                None
            },
            None => None,
        }
    }

    /// The nodes that match, given the ids that the renderer found to match.
    /// `None` where `start` is not rendered.
    pub fn query_selector_all_dom(
        &self,
        dom: &Dom,
        tree: &RenderTree,
        matches: &Vec<usize>,
        start: NodePtr,
    ) -> (res: Option<Vec<NodePtr>>)
        requires
            dom.wf(),
            self@.to_blitz.contains_key(start) ==> query_ready(
                self@,
                dom@,
                tree@,
                matches@,
                start,
            ),
        ensures
            match res {
                Some(nodes) => self@.to_blitz.contains_key(start) && nodes@ == query_results(
                    self@,
                    dom@,
                    tree@,
                    matches@,
                    start,
                ),
                None => !self@.to_blitz.contains_key(start),
            },
    {
        let start_id: usize = match self.blitz_node_id_for_dom(start) {
            Some(id) => id,
            None => {
                return None;
            },
        };
        let mut out: Vec<NodePtr> = Vec::new();
        let mut i: usize = 0;
        while i < matches.len()
            invariant
                i <= matches.len(),
                dom.wf(),
                self@.to_blitz.contains_key(start),
                self@.to_blitz[start] == start_id,
                query_ready(self@, dom@, tree@, matches@, start),
                out@ == query_results(self@, dom@, tree@, matches@.take(i as int), start),
            decreases matches.len() - i,
        {
            proof {
                assert(matches@.take(i + 1).drop_last() == matches@.take(i as int));
                assert(matches@.take(i + 1).last() == matches@[i as int]);
            }
            if let Some(n) = self.result_of(dom, tree, matches[i], start, start_id) {
                out.push(n);
            }
            i = i + 1;
        }
        assert(matches@.take(i as int) == matches@);
        Some(out)
    }

    /// The first node that matches, given the ids that the renderer found to
    /// match.
    pub fn query_selector_dom(
        &self,
        dom: &Dom,
        tree: &RenderTree,
        matches: &Vec<usize>,
        start: NodePtr,
    ) -> (res: Option<NodePtr>)
        requires
            dom.wf(),
            self@.to_blitz.contains_key(start) ==> query_ready(
                self@,
                dom@,
                tree@,
                matches@,
                start,
            ),
        ensures
            res == (if self@.to_blitz.contains_key(start) && query_results(
                self@,
                dom@,
                tree@,
                matches@,
                start,
            ).len() > 0 {
                Some(query_results(self@, dom@, tree@, matches@, start)[0])
            } else {
                None
            }),
    {
        match self.query_selector_all_dom(dom, tree, matches, start) {
            Some(nodes) => if nodes.len() > 0 {
                Some(nodes[0])
            } else {
                None
            },
            None => None,
        }
    }

    /// The element with an id, given the rendered node that the renderer found
    /// for it. Elements of shadow trees are not found.
    pub fn get_element_by_id_dom(&self, dom: &Dom, found: Option<usize>) -> (res: Option<NodePtr>)
        requires
            dom.wf(),
            found matches Some(id) && self@.to_legacy.contains_key(id) ==> climb_ends(
                dom@,
                self@.to_legacy[found->0],
                dom@.len(),
            ),
        ensures
            res == (if found is Some && self@.to_legacy.contains_key(found->0)
                && dom@[self@.to_legacy[found->0] as int] is Element && nearest_root(
                dom@,
                self@.to_legacy[found->0],
                dom@.len(),
            ) is None {
                Some(self@.to_legacy[found->0])
            } else {
                None
            }),
    {
        match found {
            Some(id) => match self.dom_node_for_blitz_id(id) {
                Some(n) => if is_element_node(dom, n)
                    && SyntheticShadowTreeBackend.nearest_shadow_root(dom, n).is_none() {
                    Some(n)
                } else {
                    None
                },
                None => None,
            },
            None => None,
        }
    }

    /// Whether `node` matches, given the ids that the renderer found to match.
    pub fn selector_matches_dom(&self, node: NodePtr, matches: &Vec<usize>) -> (res: Option<bool>)
        ensures
            res == (if self@.to_blitz.contains_key(node) {
                Some(matches@.contains(self@.to_blitz[node]))
            } else {
                None
            }),
    {
        match self.blitz_node_id_for_dom(node) {
            Some(id) => Some(holds(matches, id)),
            None => None,
        }
    }

    /// The node at or above the rendered node under a point.
    pub fn hit_test_dom_node(&self, tree: &RenderTree, hit: Option<usize>) -> (res: Option<NodePtr>)
        requires
            hit matches Some(id) ==> ascent_is_finite(tree@, id),
        ensures
            res == (match hit {
                Some(id) => node_at_or_above(self@, tree@, id, tree@.len() + 1),
                None => None,
            }),
    {
        let start: usize = match hit {
            Some(id) => id,
            None => {
                return None;
            },
        };
        let mut current: usize = start;
        let ghost mut fuel: nat = tree@.len() + 1;
        loop
            invariant
                ascent_ends(tree@, current, fuel),
                hit == Some(start),
                node_at_or_above(self@, tree@, current, fuel) == node_at_or_above(
                    self@,
                    tree@,
                    start,
                    tree@.len() + 1,
                ),
            decreases fuel,
        {
            if let Some(n) = self.dom_node_for_blitz_id(current) {
                return Some(n);
            }
            match render_parent(tree, current) {
                Some(p) => {
                    current = p;
                    proof {
                        fuel = (fuel - 1) as nat;
                    }
                },
                None => {
                    return None;
                },
            }
        }
    }

    /// The nearest element at or above `node` that matches, given the ids that
    /// the renderer found to match. The walk does not leave a shadow tree.
    pub fn closest_dom(&self, dom: &Dom, tree: &RenderTree, node: NodePtr, matches: &Vec<usize>) -> (res:
        Option<Option<NodePtr>>)
        requires
            dom.wf(),
            forall|id: usize| #[trigger]
                self@.to_legacy.contains_key(id) ==> self@.to_legacy[id] < dom@.len(),
            self@.to_blitz.contains_key(node) ==> ascent_is_finite(tree@, self@.to_blitz[node]),
        ensures
            res == (if self@.to_blitz.contains_key(node) {
                Some(
                    closest(self@, dom@, tree@, self@.to_blitz[node], matches@, tree@.len() + 1),
                )
            } else {
                None
            }),
    {
        let start: usize = match self.blitz_node_id_for_dom(node) {
            Some(id) => id,
            None => {
                return None;
            },
        };
        let mut current: usize = start;
        let ghost mut fuel: nat = tree@.len() + 1;
        loop
            invariant
                dom.wf(),
                forall|id: usize| #[trigger]
                    self@.to_legacy.contains_key(id) ==> self@.to_legacy[id] < dom@.len(),
                self@.to_blitz.contains_key(node),
                start == self@.to_blitz[node],
                ascent_ends(tree@, current, fuel),
                closest(self@, dom@, tree@, current, matches@, fuel) == closest(
                    self@,
                    dom@,
                    tree@,
                    start,
                    matches@,
                    tree@.len() + 1,
                ),
            decreases fuel,
        {
            if holds(matches, current) {
                return match self.dom_node_for_blitz_id(current) {
                    Some(n) => if is_element_node(dom, n) {
                        Some(Some(n))
                    } else {
                        Some(None)
                    },
                    None => Some(None),
                };
            }
            let parent: usize = match render_parent(tree, current) {
                Some(p) => p,
                None => {
                    return Some(None);
                },
            };
            if let Some(n) = self.dom_node_for_blitz_id(parent) {
                if SyntheticShadowTreeBackend.is_shadow_root(dom, n) {
                    return Some(None);
                }
            }
            current = parent;
            proof {
                fuel = (fuel - 1) as nat;
            }
        }
    }
}

/// The nearest element that matches at or above the rendered node `id`, within
/// its shadow tree.
pub open spec fn closest(
    s: BlitzState,
    d: DomView,
    t: RenderView,
    id: usize,
    matches: Seq<usize>,
    fuel: nat,
) -> Option<NodePtr>
    decreases fuel,
{
    if fuel == 0 {
        None
    } else if matches.contains(id) {
        if s.to_legacy.contains_key(id) && d[s.to_legacy[id] as int] is Element {
            Some(s.to_legacy[id])
        } else {
            None
        }
    } else {
        match parent_at(t, id) {
            Some(p) => if s.to_legacy.contains_key(p) && is_root_at(d, s.to_legacy[p]) {
                None
            } else {
                closest(s, d, t, p, matches, (fuel - 1) as nat)
            },
            None => None,
        }
    }
}

fn holds(list: &Vec<usize>, x: usize) -> (res: bool)
    ensures
        res == list@.contains(x),
{
    let mut i: usize = 0;
    while i < list.len()
        invariant
            i <= list.len(),
            forall|j: int| 0 <= j < i ==> list@[j] != x,
        decreases list.len() - i,
    {
        if list[i] == x {
            assert(list@[i as int] == x);
            return true;
        }
        i = i + 1;
    }
    false
}

/// Whether the walk down from `id` ends within `fuel` levels.
pub open spec fn descent_ends(t: RenderView, id: usize, fuel: nat) -> bool
    decreases fuel,
{
    fuel > 0 && (node_at(t, id) matches Some(node) ==> forall|i: int|
        0 <= i < node.children.len() ==> descent_ends(
            t,
            #[trigger] node.children[i],
            (fuel - 1) as nat,
        ))
}

/// Whether the rendered node `id` is one that a search for `tag` returns.
pub open spec fn tag_result(
    s: BlitzState,
    d: DomView,
    id: usize,
    node: RenderNodeView,
    tag: Seq<char>,
    start: NodePtr,
) -> bool {
    &&& element_of(node.data) matches Some(el) && (tag == "*"@ || same_ignoring_case(
        el.name.local,
        tag,
    ))
    &&& s.to_legacy.contains_key(id)
    &&& d[s.to_legacy[id] as int] is Element
    &&& can_see(d, start, s.to_legacy[id])
}

/// The nodes with the given tag at and below the rendered node `id`.
pub open spec fn tagged(
    s: BlitzState,
    d: DomView,
    t: RenderView,
    id: usize,
    tag: Seq<char>,
    start: NodePtr,
    fuel: nat,
) -> Seq<NodePtr>
    decreases fuel, 1nat, 0nat,
{
    match node_at(t, id) {
        Some(node) => (if tag_result(s, d, id, node, tag, start) {
            seq![s.to_legacy[id]]
        } else {
            Seq::empty()
        }) + tagged_all(s, d, t, node.children, tag, start, fuel),
        None => Seq::empty(),
    }
}

/// The nodes with the given tag at and below the rendered nodes of a list.
pub open spec fn tagged_all(
    s: BlitzState,
    d: DomView,
    t: RenderView,
    ids: Seq<usize>,
    tag: Seq<char>,
    start: NodePtr,
    fuel: nat,
) -> Seq<NodePtr>
    decreases fuel, 0nat, ids.len(),
{
    if ids.len() == 0 || fuel == 0 {
        Seq::empty()
    } else {
        tagged_all(s, d, t, ids.drop_last(), tag, start, fuel) + tagged(
            s,
            d,
            t,
            ids.last(),
            tag,
            start,
            (fuel - 1) as nat,
        )
    }
}

impl BlitzDocument {
    fn collect_by_tag_from_blitz(
        &self,
        dom: &Dom,
        tree: &RenderTree,
        node_id: usize,
        tag: &str,
        start: NodePtr,
        out: &mut Vec<NodePtr>,
        Ghost(fuel): Ghost<nat>,
    )
        requires
            dom.wf(),
            descent_ends(tree@, node_id, fuel),
            climb_ends(dom@, start, dom@.len()),
            forall|id: usize| #[trigger]
                self@.to_legacy.contains_key(id) ==> climb_ends(
                    dom@,
                    self@.to_legacy[id],
                    dom@.len(),
                ),
        ensures
            final(out)@ == old(out)@ + tagged(
                self@,
                dom@,
                tree@,
                node_id,
                tag@,
                start,
                fuel,
            ),
        decreases fuel,
    {
        let ghost begin = out@;
        let node = match tree.get_node(node_id) {
            Some(node) => node,
            None => {
                assert(out@ =~= begin + tagged(self@, dom@, tree@, node_id, tag@, start, fuel));
                return ;
            },
        };
        if let Some(el) = node.data.downcast_element() {
            if text_eq(tag, "*") || eq_ignore_ascii_case(el.name.local.as_str(), tag) {
                if let Some(n) = self.dom_node_for_blitz_id(node_id) {
                    if is_element_node(dom, n) && query_can_see(dom, start, n) {
                        out.push(n);
                    }
                }
            }
        }
        let ghost own = if tag_result(self@, dom@, node_id, node@, tag@, start) {
            seq![self@.to_legacy[node_id]]
        } else {
            Seq::empty()
        };
        assert(out@ =~= begin + own);
        let mut i: usize = 0;
        while i < node.children.len()
            invariant
                i <= node.children.len(),
                dom.wf(),
                node_at(tree@, node_id) == Some(node@),
                descent_ends(tree@, node_id, fuel),
                climb_ends(dom@, start, dom@.len()),
                forall|id: usize| #[trigger]
                    self@.to_legacy.contains_key(id) ==> climb_ends(
                        dom@,
                        self@.to_legacy[id],
                        dom@.len(),
                    ),
                out@ == (begin + own) + tagged_all(
                    self@,
                    dom@,
                    tree@,
                    node.children@.take(i as int),
                    tag@,
                    start,
                    fuel,
                ),
            decreases node.children.len() - i,
        {
            proof {
                assert(node.children@.take(i + 1).drop_last() == node.children@.take(i as int));
                assert(node.children@.take(i + 1).last() == node.children@[i as int]);
                assert(node@.children[i as int] == node.children@[i as int]);
            }
            self.collect_by_tag_from_blitz(
                dom,
                tree,
                node.children[i],
                tag,
                start,
                out,
                Ghost((fuel - 1) as nat),
            );
            proof {
                let a = tagged_all(
                    self@,
                    dom@,
                    tree@,
                    node.children@.take(i as int),
                    tag@,
                    start,
                    fuel,
                );
                let b = tagged(
                    self@,
                    dom@,
                    tree@,
                    node.children@[i as int],
                    tag@,
                    start,
                    (fuel - 1) as nat,
                );
                assert(((begin + own) + a) + b =~= (begin + own) + (a + b));
            }
            i = i + 1;
        }
        proof {
            assert(node.children@.take(i as int) == node.children@);
            let rest = tagged_all(self@, dom@, tree@, node.children@, tag@, start, fuel);
            assert((begin + own) + rest =~= begin + (own + rest));
        }
    }

    /// The elements with the given tag at and below `start`, `*` meaning any.
    /// `None` where `start` is not rendered.
    pub fn collect_by_tag_dom(&self, dom: &Dom, tree: &RenderTree, tag: &str, start: NodePtr) -> (res:
        Option<Vec<NodePtr>>)
        requires
            dom.wf(),
            self@.to_blitz.contains_key(start) ==> {
                &&& descent_ends(tree@, self@.to_blitz[start], tree@.len() + 1)
                &&& climb_ends(dom@, start, dom@.len())
                &&& forall|id: usize| #[trigger]
                    self@.to_legacy.contains_key(id) ==> climb_ends(
                        dom@,
                        self@.to_legacy[id],
                        dom@.len(),
                    )
            },
        ensures
            match res {
                Some(nodes) => self@.to_blitz.contains_key(start) && nodes@ == tagged(
                    self@,
                    dom@,
                    tree@,
                    self@.to_blitz[start],
                    tag@,
                    start,
                    tree@.len() + 1,
                ),
                None => !self@.to_blitz.contains_key(start),
            },
    {
        let start_id: usize = match self.blitz_node_id_for_dom(start) {
            Some(id) => id,
            None => {
                return None;
            },
        };
        let mut out: Vec<NodePtr> = Vec::new();
        self.collect_by_tag_from_blitz(
            dom,
            tree,
            start_id,
            tag,
            start,
            &mut out,
            Ghost(tree@.len() + 1),
        );
        assert(out@ =~= tagged(
            self@,
            dom@,
            tree@,
            start_id,
            tag@,
            start,
            tree@.len() + 1,
        ));
        Some(out)
    }
}

} // verus!
