//! What it means that the check of the mirror finds no fault.

use crate::blitz_document::maps::rendered_children;
use crate::blitz_document::render::{element_of, RenderDataView, RenderNodeView, RenderView};
use crate::blitz_document::validate::{attributes_by_name, child_fault, children_fault, data_fault,
    element_fault, first_unknown, first_unmatched, ids_of, node_fault};
use crate::dom::attributes::{in_order, Pair};
use crate::dom::node::{DomView, ElementView, NodePtr, NodeView};
use crate::dom::shadow::is_root_at;
use vstd::prelude::*;

verus! {

/// Whether all pairs are in a map.
pub open spec fn all_given(pairs: Seq<Pair>, m: Map<Seq<char>, Seq<char>>) -> bool {
    forall|i: int|
        0 <= i < pairs.len() ==> m.contains_key((#[trigger] pairs[i]).0) && m[pairs[i].0]
            == pairs[i].1
}

/// Whether the names of all pairs are in a map.
pub open spec fn all_known(pairs: Seq<Pair>, m: Map<Seq<char>, Seq<char>>) -> bool {
    forall|i: int| 0 <= i < pairs.len() ==> m.contains_key((#[trigger] pairs[i]).0)
}

/// Whether all of some rendered nodes are there and have `id` as their parent.
pub open spec fn all_below(t: RenderView, id: usize, ids: Seq<usize>) -> bool {
    forall|i: int|
        0 <= i < ids.len() ==> (#[trigger] ids[i]) < t.len() && t[ids[i] as int] is Some
            && t[ids[i] as int]->0.parent == Some(id)
}

/// Whether a rendered element shows an element: it has its tag name, all its
/// attributes with their values, and no others.
pub open spec fn shows_element(el: ElementView, data: RenderDataView) -> bool {
    let shown = match data {
        RenderDataView::Element(shown) => Some(shown),
        RenderDataView::AnonymousBlock(shown) => Some(shown),
        _ => None,
    };
    &&& shown is Some
    &&& shown->0.name.local == el.tag_name
    &&& {
        let attrs = attributes_by_name(shown->0.attrs);
        &&& all_given(in_order(el.attributes), attrs)
        &&& all_known(in_order(attrs), el.attributes)
    }
}

/// Whether a rendered node shows a node that is no shadow root.
pub open spec fn shows_node(n: NodeView, data: RenderDataView) -> bool {
    match n {
        NodeView::Document { children, mode } => data is Document || data is Element
            || data is AnonymousBlock,
        NodeView::Text { content, parent } => data == RenderDataView::Text(content),
        NodeView::Comment { content, parent } => data is Comment,
        NodeView::Element(el) => shows_element(el, data),
    }
}

/// A rendered node is without fault exactly if it shows its node and has below it,
/// in order, what is rendered for the node's children, each with it as its parent.
pub proof fn law_faultless_nodes_show_their_nodes(
    operation: Seq<char>,
    d: DomView,
    to_blitz: Map<usize, usize>,
    t: RenderView,
    n: NodePtr,
    id: usize,
    node: RenderNodeView,
)
    requires
        !is_root_at(d, n),
    ensures
        node_fault(operation, d, to_blitz, t, n, n, id, node) is None <==> {
            &&& shows_node(d[n as int], node.data)
            &&& node.children == rendered_children(d, n).filter(
                |x: NodePtr| to_blitz.contains_key(x),
            ).map_values(|x: NodePtr| to_blitz[x])
            &&& all_below(t, id, node.children)
        },
{
    let kids = rendered_children(d, n);
    lemma_ids(kids, to_blitz);
    lemma_data(d, to_blitz, n, node);
    lemma_children(operation, t, n, id, node.children);
}

proof fn lemma_data(d: DomView, to_blitz: Map<usize, usize>, n: NodePtr, node: RenderNodeView)
    requires
        !is_root_at(d, n),
    ensures
        data_fault(d, to_blitz, n, node) is None <==> shows_node(d[n as int], node.data),
{
    if let NodeView::Element(el) = d[n as int] {
        if let Some(shown) = element_of(node.data) {
            let attrs = attributes_by_name(shown.attrs);
            lemma_unmatched(in_order(el.attributes), attrs);
            lemma_unknown(in_order(attrs), el.attributes);
            assert(element_fault(el, node.data) is None <==> shows_element(el, node.data));
        }
    }
}

proof fn lemma_unmatched(pairs: Seq<Pair>, m: Map<Seq<char>, Seq<char>>)
    ensures
        first_unmatched(pairs, m) is None <==> all_given(pairs, m),
    decreases pairs.len(),
{
    if pairs.len() > 0 {
        let rest = pairs.drop_first();
        lemma_unmatched(rest, m);
        if all_given(pairs, m) {
            assert forall|i: int| 0 <= i < rest.len() implies m.contains_key(
                (#[trigger] rest[i]).0,
            ) && m[rest[i].0] == rest[i].1 by {
                assert(pairs[i + 1] == rest[i]);
            }
        }
        if all_given(rest, m) {
            assert forall|i: int| 0 < i < pairs.len() implies m.contains_key(
                (#[trigger] pairs[i]).0,
            ) && m[pairs[i].0] == pairs[i].1 by {
                assert(pairs[i] == rest[i - 1]);
            }
            assert(pairs[0] == pairs.first());
        }
    }
}

proof fn lemma_unknown(pairs: Seq<Pair>, m: Map<Seq<char>, Seq<char>>)
    ensures
        first_unknown(pairs, m) is None <==> all_known(pairs, m),
    decreases pairs.len(),
{
    if pairs.len() > 0 {
        let rest = pairs.drop_first();
        lemma_unknown(rest, m);
        if all_known(pairs, m) {
            assert forall|i: int| 0 <= i < rest.len() implies m.contains_key(
                (#[trigger] rest[i]).0,
            ) by {
                assert(pairs[i + 1] == rest[i]);
            }
        }
        if all_known(rest, m) {
            assert forall|i: int| 0 < i < pairs.len() implies m.contains_key(
                (#[trigger] pairs[i]).0,
            ) by {
                assert(pairs[i] == rest[i - 1]);
            }
            assert(pairs[0] == pairs.first());
        }
    }
}

proof fn lemma_ids(kids: Seq<NodePtr>, to_blitz: Map<usize, usize>)
    ensures
        ids_of(kids, to_blitz) == kids.filter(
            |x: NodePtr| to_blitz.contains_key(x),
        ).map_values(|x: NodePtr| to_blitz[x]),
    decreases kids.len(),
{
    reveal(Seq::filter);
    let q = |x: NodePtr| to_blitz.contains_key(x);
    let f = |x: NodePtr| to_blitz[x];
    if kids.len() == 0 {
        assert(ids_of(kids, to_blitz) =~= kids.filter(q).map_values(f));
    } else {
        lemma_ids(kids.drop_last(), to_blitz);
        let front = kids.drop_last().filter(q);
        if q(kids.last()) {
            assert(kids.filter(q) == front.push(kids.last()));
            assert(front.push(kids.last()).map_values(f) =~= front.map_values(f).push(
                f(kids.last()),
            ));
        }
    }
}

proof fn lemma_children(operation: Seq<char>, t: RenderView, n: NodePtr, id: usize, ids: Seq<usize>)
    ensures
        children_fault(operation, t, n, id, ids) is None <==> all_below(t, id, ids),
    decreases ids.len(),
{
    if ids.len() > 0 {
        let front = ids.drop_last();
        lemma_children(operation, t, n, id, front);
        let last = ids.last();
        assert(ids[ids.len() - 1] == last);
        if all_below(t, id, ids) {
            assert forall|i: int| 0 <= i < front.len() implies (#[trigger] front[i]) < t.len()
                && t[front[i] as int] is Some && t[front[i] as int]->0.parent == Some(id) by {
                assert(ids[i] == front[i]);
            }
        }
        if all_below(t, id, front) && child_fault(operation, t, n, id, last) is None {
            assert forall|i: int| 0 <= i < ids.len() implies (#[trigger] ids[i]) < t.len()
                && t[ids[i] as int] is Some && t[ids[i] as int]->0.parent == Some(id) by {
                if i < front.len() {
                    assert(ids[i] == front[i]);
                }
            }
        }
    }
}

} // verus!
