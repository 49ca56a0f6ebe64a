//! What the mirror remembers and forgets.

use crate::blitz_document::document::BlitzState;
use crate::blitz_document::finish::committed;
use crate::blitz_document::insertion::{first_rendered, next_rendered};
use crate::blitz_document::maps::{dropped, dropped_all, forgotten, law_dropping_keeps_pairs,
    law_unmapping_keeps_pairs, lemma_dropping_all, lemma_unmapping_all, paired, rendered_children,
    unmapped, unmapped_all, Mirror};
use crate::blitz_document::plan::RenderOpView;
use crate::blitz_document::render::RenderAttributeView;
use crate::blitz_document::sync::{clear_ops, diff_ops, set_ops};
use crate::dom::node::{children_of, shadow_root_of, DomView, NodePtr};
use crate::dom::routes::{arrival, routes_end, Below};
use crate::dom::shadow::{composed, distributed};
use crate::js::mutation::lemma_first_index;
use vstd::prelude::*;

verus! {

/// Whether a document has no shadow trees.
pub open spec fn is_plain(d: DomView) -> bool {
    forall|m: NodePtr| m < d.len() ==> shadow_root_of(#[trigger] d[m as int]) is None
}

/// The lists of what is rendered below a node.
pub open spec fn rendered_lists(d: DomView) -> Below {
    |m: NodePtr| composed(d, m, d.len())
}

/// In a document without shadow trees, unmapping a node forgets it and everything
/// rendered below it, at every depth, and forgets nothing else.
pub proof fn law_unmapping_forgets_what_is_below(m: Mirror, n: NodePtr, fuel: nat, x: NodePtr)
    requires
        is_plain(m.dom),
        forall|k: NodePtr, i: int|
            k < m.dom.len() && 0 <= i < rendered_lists(m.dom)(k).len() ==> (
            #[trigger] rendered_lists(m.dom)(k)[i]) < m.dom.len(),
        n < m.dom.len(),
        routes_end(rendered_lists(m.dom), n, fuel),
    ensures
        ({
            let e = unmapped(m, n, fuel);
            let gone = exists|route: Seq<int>| #[trigger]
                arrival(rendered_lists(m.dom), n, route) == Some(x);
            &&& e.dom == m.dom
            &&& gone ==> !e.to_blitz.contains_key(x)
            &&& !gone ==> e.to_blitz.contains_key(x) == m.to_blitz.contains_key(x) && (
            m.to_blitz.contains_key(x) ==> e.to_blitz[x] == m.to_blitz[x])
        }),
    decreases fuel, 1nat, 0nat,
{
    let below = rendered_lists(m.dom);
    let first = forgotten(m, n);
    let kids = below(n);
    assert(rendered_children(m.dom, n) == kids);
    assert(kids.take(kids.len() as int) =~= kids);
    let mid = Mirror { dom: m.dom, ..first };
    lemma_unmapped_some(mid, n, kids.len() as int, fuel, x);
    assert(arrival(below, n, Seq::<int>::empty()) == Some(n));
    let e = unmapped(m, n, fuel);
    assert(e == unmapped_all(mid, kids, fuel));
    if exists|route: Seq<int>| #[trigger] arrival(below, n, route) == Some(x) {
        let route = choose|route: Seq<int>| #[trigger] arrival(below, n, route) == Some(x);
        if route.len() > 0 {
            assert(arrival(below, kids[route[0]], route.drop_first()) == Some(x));
        }
    } else if is_below(m.dom, n, kids.len() as int, x) {
        let (i, r) = choose|i: int, r: Seq<int>|
            0 <= i < kids.len() && #[trigger] arrival(below, kids[i], r) == Some(x);
        let route = seq![i] + r;
        assert(route.drop_first() =~= r);
        assert(arrival(below, n, route) == Some(x));
    }
}

/// Whether a route leads to `x` from one of the first `k` nodes rendered below `n`.
spec fn is_below(d: DomView, n: NodePtr, k: int, x: NodePtr) -> bool {
    exists|i: int, r: Seq<int>|
        0 <= i < k && #[trigger] arrival(rendered_lists(d), rendered_lists(d)(n)[i], r) == Some(x)
}

proof fn lemma_unmapped_some(m: Mirror, n: NodePtr, k: int, fuel: nat, x: NodePtr)
    requires
        is_plain(m.dom),
        forall|k: NodePtr, i: int|
            k < m.dom.len() && 0 <= i < rendered_lists(m.dom)(k).len() ==> (
            #[trigger] rendered_lists(m.dom)(k)[i]) < m.dom.len(),
        n < m.dom.len(),
        routes_end(rendered_lists(m.dom), n, fuel),
        0 <= k <= rendered_lists(m.dom)(n).len(),
    ensures
        ({
            let e = unmapped_all(m, rendered_lists(m.dom)(n).take(k), fuel);
            &&& e.dom == m.dom
            &&& is_below(m.dom, n, k, x) ==> !e.to_blitz.contains_key(x)
            &&& !is_below(m.dom, n, k, x) ==> e.to_blitz.contains_key(x) == m.to_blitz.contains_key(
                x,
            ) && (m.to_blitz.contains_key(x) ==> e.to_blitz[x] == m.to_blitz[x])
            &&& e.to_blitz.contains_key(x) ==> m.to_blitz.contains_key(x)
        }),
    decreases fuel, 0nat, k,
{
    let below = rendered_lists(m.dom);
    let kids = below(n);
    if k > 0 {
        lemma_unmapped_some(m, n, k - 1, fuel, x);
        assert(kids.take(k).drop_last() =~= kids.take(k - 1));
        assert(kids.take(k).last() == kids[k - 1]);
        let before = unmapped_all(m, kids.take(k - 1), fuel);
        assert(routes_end(below, below(n)[k - 1], (fuel - 1) as nat));
        law_unmapping_forgets_what_is_below(before, kids[k - 1], (fuel - 1) as nat, x);
        if is_below(m.dom, n, k, x) && !is_below(m.dom, n, k - 1, x) {
            let (i, r) = choose|i: int, r: Seq<int>|
                0 <= i < k && #[trigger] arrival(below, kids[i], r) == Some(x);
            assert(i == k - 1);
        }
        if !is_below(m.dom, n, k, x) {
            assert(!is_below(m.dom, n, k - 1, x)) by {
                if is_below(m.dom, n, k - 1, x) {
                    let (i, r) = choose|i: int, r: Seq<int>|
                        0 <= i < k - 1 && #[trigger] arrival(below, kids[i], r) == Some(x);
                    assert(arrival(below, kids[i], r) == Some(x));
                }
            }
            assert forall|r: Seq<int>| #[trigger]
                arrival(below, kids[k - 1], r) != Some(x) by {}
        }
    }
}

/// Unmapping a node forgets everything that is rendered right below it, in shadow
/// trees and slots too; what is forgotten of each of them is forgotten with it.
pub proof fn law_unmapping_forgets_rendered_children(m: Mirror, n: NodePtr, fuel: nat, c: NodePtr)
    requires
        paired(m),
        fuel > 0,
        rendered_children(m.dom, n).contains(c),
    ensures
        !unmapped(m, n, fuel).to_blitz.contains_key(c),
{
    let e = forgotten(m, n);
    let kids = rendered_children(m.dom, n);
    let mid = Mirror { dom: distributed(e.dom, n), ..e };
    assert(paired(mid));
    let i = choose|i: int| 0 <= i < kids.len() && kids[i] == c;
    lemma_kid_unmapped(mid, kids, fuel, i);
}

proof fn lemma_kid_unmapped(m: Mirror, kids: Seq<NodePtr>, fuel: nat, i: int)
    requires
        paired(m),
        fuel > 0,
        0 <= i < kids.len(),
    ensures
        !unmapped_all(m, kids, fuel).to_blitz.contains_key(kids[i]),
    decreases kids.len(),
{
    let front = kids.drop_last();
    let before = unmapped_all(m, front, fuel);
    lemma_unmapping_all(m, front, fuel);
    law_unmapping_keeps_pairs(before, kids.last(), (fuel - 1) as nat);
    if i < front.len() {
        lemma_kid_unmapped(m, front, fuel, i);
        assert(front[i] == kids[i]);
    }
}

/// Dropping a rendered node forgets its node and what is rendered right below it;
/// what is dropped with each of them goes with it.
pub proof fn law_dropping_forgets_rendered_children(m: Mirror, id: usize, fuel: nat, c: NodePtr)
    requires
        paired(m),
        fuel > 0,
        m.to_legacy.contains_key(id),
        c == m.to_legacy[id] || rendered_children(m.dom, m.to_legacy[id]).contains(c),
    ensures
        !dropped(m, id, fuel).to_blitz.contains_key(c),
{
    let n = m.to_legacy[id];
    let kids = rendered_children(m.dom, n);
    let mid = Mirror {
        dom: distributed(m.dom, n),
        to_blitz: m.to_blitz.remove(n),
        to_legacy: m.to_legacy.remove(id),
    };
    assert(m.to_blitz.contains_key(n));
    assert(paired(mid));
    lemma_dropping_all(mid, kids, fuel);
    if c != n {
        let i = choose|i: int| 0 <= i < kids.len() && kids[i] == c;
        lemma_kid_dropped(mid, kids, fuel, i);
    }
}

proof fn lemma_kid_dropped(m: Mirror, kids: Seq<NodePtr>, fuel: nat, i: int)
    requires
        paired(m),
        fuel > 0,
        0 <= i < kids.len(),
    ensures
        !dropped_all(m, kids, fuel).to_blitz.contains_key(kids[i]),
    decreases kids.len(),
{
    let front = kids.drop_last();
    let before = dropped_all(m, front, fuel);
    lemma_dropping_all(m, front, fuel);
    if before.to_blitz.contains_key(kids.last()) {
        let id = before.to_blitz[kids.last()];
        law_dropping_keeps_pairs(before, id, (fuel - 1) as nat);
        let after = dropped(before, id, (fuel - 1) as nat);
        if after.to_blitz.contains_key(kids.last()) {
            assert(after.to_legacy.contains_key(after.to_blitz[kids.last()]));
        }
    }
    if i < front.len() {
        lemma_kid_dropped(m, front, fuel, i);
        assert(front[i] == kids[i]);
    }
}

/// Committing pairs every created node with the id that was given to it, both
/// ways, and leaves all other pairs as they are.
pub proof fn law_commits_pair_nodes_with_ids(
    s: BlitzState,
    created: Seq<NodePtr>,
    ids: Seq<usize>,
    i: int,
    n: NodePtr,
    id: usize,
)
    requires
        ids.len() <= created.len(),
        created.no_duplicates(),
        ids.no_duplicates(),
    ensures
        ({
            let e = committed(s, created, ids);
            &&& 0 <= i < ids.len() ==> e.to_blitz.contains_key(created[i])
                && e.to_blitz[created[i]] == ids[i] && e.to_legacy.contains_key(ids[i])
                && e.to_legacy[ids[i]] == created[i]
            &&& !created.contains(n) ==> e.to_blitz.contains_key(n) == s.to_blitz.contains_key(n)
                && (s.to_blitz.contains_key(n) ==> e.to_blitz[n] == s.to_blitz[n])
            &&& !ids.contains(id) ==> e.to_legacy.contains_key(id) == s.to_legacy.contains_key(id)
                && (s.to_legacy.contains_key(id) ==> e.to_legacy[id] == s.to_legacy[id])
        }),
    decreases ids.len(),
{
    if ids.len() > 0 {
        let front = ids.drop_last();
        assert(front.no_duplicates());
        if !ids.contains(id) {
            assert(!front.contains(id)) by {
                if front.contains(id) {
                    let j = choose|j: int| 0 <= j < front.len() && front[j] == id;
                    assert(ids[j] == id);
                }
            }
            assert(ids[ids.len() - 1] != id);
        }
        law_commits_pair_nodes_with_ids(s, created, front, i, n, id);
        if 0 <= i < front.len() {
            assert(front[i] == ids[i]);
            assert(created[i] != created[ids.len() - 1]);
            assert(ids[i] != ids[ids.len() - 1]);
        }
    }
}

/// What a node goes before in the renderer is the nearest sibling behind it that
/// is rendered: all between the two are not.
pub proof fn law_anchor_is_the_nearest_rendered(
    d: DomView,
    to_blitz: Map<usize, usize>,
    parent: NodePtr,
    node: NodePtr,
    at: int,
)
    requires
        0 <= at < children_of(d[parent as int]).len(),
        children_of(d[parent as int])[at] == node,
        forall|j: int| 0 <= j < at ==> #[trigger] children_of(d[parent as int])[j] != node,
    ensures
        ({
            let kids = children_of(d[parent as int]);
            match next_rendered(d, to_blitz, parent, node) {
                Some(x) => exists|k: int|
                    at < k < kids.len() && #[trigger] kids[k] == x && to_blitz.contains_key(x)
                        && forall|j: int|
                        at < j < k ==> !to_blitz.contains_key(#[trigger] kids[j]),
                None => forall|j: int|
                    at < j < kids.len() ==> !to_blitz.contains_key(#[trigger] kids[j]),
            }
        }),
{
    let kids = children_of(d[parent as int]);
    lemma_first_index(kids, node, at);
    let rest = kids.skip(at + 1);
    lemma_first_rendered(rest, to_blitz);
    assert forall|j: int| at < j < kids.len() implies #[trigger] kids[j] == rest[j - at - 1] by {}
    if let Some(x) = next_rendered(d, to_blitz, parent, node) {
        let k = choose|k: int|
            0 <= k < rest.len() && #[trigger] rest[k] == x && to_blitz.contains_key(x) && forall|
                j: int,
            |
                0 <= j < k ==> !to_blitz.contains_key(#[trigger] rest[j]);
        assert(kids[k + at + 1] == x);
    }
}

proof fn lemma_first_rendered(list: Seq<NodePtr>, to_blitz: Map<usize, usize>)
    ensures
        match first_rendered(list, to_blitz) {
            Some(x) => exists|k: int|
                0 <= k < list.len() && #[trigger] list[k] == x && to_blitz.contains_key(x)
                    && forall|j: int| 0 <= j < k ==> !to_blitz.contains_key(#[trigger] list[j]),
            None => forall|j: int| 0 <= j < list.len() ==> !to_blitz.contains_key(#[trigger] list[j]),
        },
    decreases list.len(),
{
    if list.len() > 0 {
        if to_blitz.contains_key(list[0]) {
            assert(list[0] == first_rendered(list, to_blitz)->0);
        } else {
            let rest = list.drop_first();
            lemma_first_rendered(rest, to_blitz);
            assert forall|j: int| 0 < j < list.len() implies #[trigger] list[j] == rest[j - 1] by {}
            if let Some(x) = first_rendered(list, to_blitz) {
                let k = choose|k: int|
                    0 <= k < rest.len() && #[trigger] rest[k] == x && to_blitz.contains_key(x)
                        && forall|j: int|
                        0 <= j < k ==> !to_blitz.contains_key(#[trigger] rest[j]);
                assert(list[k + 1] == x);
            }
        }
    }
}

/// Bringing attributes up to date touches only what differs, on the one node: what
/// is set was not there with that value, and what is cleared is not wanted.
pub proof fn law_equal_attributes_are_left_alone(
    id: usize,
    existing: Seq<RenderAttributeView>,
    desired: Seq<RenderAttributeView>,
    i: int,
)
    requires
        0 <= i < diff_ops(id, existing, desired).len(),
    ensures
        match diff_ops(id, existing, desired)[i] {
            RenderOpView::SetAttribute { node, name, value } => node == id && desired.contains(
                RenderAttributeView { name, value },
            ) && !existing.contains(RenderAttributeView { name, value }),
            RenderOpView::ClearAttribute { node, name } => node == id && (exists|j: int|
                0 <= j < existing.len() && (#[trigger] existing[j]).name == name) && forall|j: int|
                0 <= j < desired.len() ==> (#[trigger] desired[j]).name != name,
            _ => false,
        },
{
    let clears = clear_ops(id, existing, desired);
    if i < clears.len() {
        lemma_clears(id, existing, desired, i);
    } else {
        lemma_sets(id, existing, desired, i - clears.len());
    }
}

proof fn lemma_clears(
    id: usize,
    existing: Seq<RenderAttributeView>,
    desired: Seq<RenderAttributeView>,
    i: int,
)
    requires
        0 <= i < clear_ops(id, existing, desired).len(),
    ensures
        clear_ops(id, existing, desired)[i] matches RenderOpView::ClearAttribute { node, name }
            && node == id && (exists|j: int|
            0 <= j < existing.len() && (#[trigger] existing[j]).name == name) && forall|j: int|
            0 <= j < desired.len() ==> (#[trigger] desired[j]).name != name,
    decreases existing.len(),
{
    if existing.len() > 0 {
        let front = existing.drop_last();
        let before = clear_ops(id, front, desired);
        if i < before.len() {
            lemma_clears(id, front, desired, i);
            let name = before[i]->ClearAttribute_name;
            let j = choose|j: int| 0 <= j < front.len() && (#[trigger] front[j]).name == name;
            assert(existing[j].name == name);
        } else {
            assert(existing[existing.len() - 1] == existing.last());
        }
    }
}

proof fn lemma_sets(
    id: usize,
    existing: Seq<RenderAttributeView>,
    desired: Seq<RenderAttributeView>,
    i: int,
)
    requires
        0 <= i < set_ops(id, existing, desired).len(),
    ensures
        set_ops(id, existing, desired)[i] matches RenderOpView::SetAttribute { node, name, value }
            && node == id && desired.contains(RenderAttributeView { name, value })
            && !existing.contains(RenderAttributeView { name, value }),
    decreases desired.len(),
{
    if desired.len() > 0 {
        let front = desired.drop_last();
        let before = set_ops(id, existing, front);
        if i < before.len() {
            lemma_sets(id, existing, front, i);
            let a = RenderAttributeView {
                name: before[i]->SetAttribute_name,
                value: before[i]->SetAttribute_value,
            };
            let j = choose|j: int| 0 <= j < front.len() && front[j] == a;
            assert(desired[j] == a);
        } else {
            let last = desired.last();
            assert(desired[desired.len() - 1] == last);
            assert(last == (RenderAttributeView { name: last.name, value: last.value }));
        }
    }
}

} // verus!
