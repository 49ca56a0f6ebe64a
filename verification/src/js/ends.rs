//! Why scripted look-ups end.
//!
//! A look-up climbs from a node to the node that owns it, and repairs parent
//! pointers on the way. Where no node owns itself every such climb ends.

use crate::dom::layers::{acyclic, law_acyclic_walks_end, lemma_layers_end_children,
    lemma_layers_end_slots, lemma_layers_survive_distribution, lemma_owned_is_lower, owner_layers,
    owns, render_layers, renderable};
use crate::dom::node::{children_of, closed_links, finite_from, followed, node_ok, parent_of,
    retained_of, same_links, DomView, NodePtr, Reach};
use crate::dom::shadow::{climb_ends, is_root_at, nearest_root};
use crate::js::nodes::{closest_ends, parent_lookup_ends, script_parent, slotted, slotting_ends,
    tried};
use crate::js::query::{ancestor_chain, found_parent, lemma_found_parent_links, lemma_scan_owns,
    lookups_end, parent_is_current, query_ends, scanned_parent, scanned_parent_among};
use vstd::prelude::*;

verus! {

/// Layers are a matter of links alone.
proof fn lemma_same_owners(d: DomView, e: DomView, layers: Seq<nat>)
    requires
        owner_layers(d, layers),
        same_links(d, e, Reach::All),
        e.len() == d.len(),
        closed_links(e),
    ensures
        owner_layers(e, layers),
{
    assert forall|a: NodePtr, b: NodePtr| #[trigger] owns(e, a, b) implies layers[b as int]
        < layers[a as int] by {
        assert(followed(d[a as int], Reach::All) == followed(e[a as int], Reach::All));
        assert(owns(d, a, b));
    }
}

/// What a search finds lies no higher than where it started.
proof fn lemma_scan_is_lower(d: DomView, layers: Seq<nat>, root: NodePtr, target: NodePtr, fuel: nat)
    requires
        owner_layers(d, layers),
        root < d.len(),
    ensures
        scanned_parent(d, root, target, fuel) matches Some(p) ==> layers[p as int]
            <= layers[root as int],
    decreases fuel, 1nat, 0nat,
{
    let kids = followed(d[root as int], Reach::Inert);
    assert forall|i: int| 0 <= i < kids.len() implies owns(d, root, #[trigger] kids[i]) by {
        lemma_inert_is_owned(d, root, kids[i]);
    }
    lemma_scan_among_is_lower(d, layers, kids, root, target, fuel);
}

proof fn lemma_scan_among_is_lower(
    d: DomView,
    layers: Seq<nat>,
    kids: Seq<NodePtr>,
    root: NodePtr,
    target: NodePtr,
    fuel: nat,
)
    requires
        owner_layers(d, layers),
        root < d.len(),
        forall|i: int| 0 <= i < kids.len() ==> owns(d, root, #[trigger] kids[i]),
    ensures
        scanned_parent_among(d, kids, root, target, fuel) matches Some(p) ==> layers[p as int]
            <= layers[root as int],
    decreases fuel, 0nat, kids.len(),
{
    if kids.len() > 0 && fuel > 0 {
        assert forall|i: int| 0 <= i < kids.drop_last().len() implies owns(
            d,
            root,
            #[trigger] kids.drop_last()[i],
        ) by {
            assert(kids[i] == kids.drop_last()[i]);
        }
        lemma_scan_among_is_lower(d, layers, kids.drop_last(), root, target, fuel);
        assert(owns(d, root, kids[kids.len() - 1]));
        lemma_owned_is_lower(d, layers, root, kids.last());
        lemma_scan_is_lower(d, layers, kids.last(), target, (fuel - 1) as nat);
    }
}

/// Children and template contents are owned.
proof fn lemma_inert_is_owned(d: DomView, a: NodePtr, b: NodePtr)
    requires
        a < d.len(),
        followed(d[a as int], Reach::Inert).contains(b),
    ensures
        owns(d, a, b),
{
    let list = followed(d[a as int], Reach::Inert);
    let kids = children_of(d[a as int]);
    let all = followed(d[a as int], Reach::All);
    let i = choose|i: int| 0 <= i < list.len() && list[i] == b;
    if i < kids.len() {
        assert(all[i] == b);
    } else {
        assert(retained_of(d[a as int])[0] == b);
        assert(all[kids.len() as int] == b);
    }
}

/// A parent look-up leads to a higher layer and keeps the layers.
proof fn lemma_found_is_higher(d: DomView, layers: Seq<nat>, root: NodePtr, target: NodePtr)
    requires
        owner_layers(d, layers),
        root < d.len(),
        target < d.len(),
    ensures
        owner_layers(found_parent(d, root, target).0, layers),
        found_parent(d, root, target).0.len() == d.len(),
        found_parent(d, root, target).1 matches Some(p) ==> p < d.len() && layers[target as int]
            < layers[p as int],
        !parent_is_current(d, target) && found_parent(d, root, target).1 is Some
            ==> layers[target as int] < layers[root as int],
{
    let (e, parent) = found_parent(d, root, target);
    assert(node_ok(d[target as int], d.len()));
    lemma_found_parent_links(d, root, target, Reach::All);
    if parent_is_current(d, target) {
        if let Some(p) = parent {
            let kids = children_of(d[p as int]);
            let kept = retained_of(d[p as int]);
            let all = followed(d[p as int], Reach::All);
            if kids.contains(target) {
                let i = choose|i: int| 0 <= i < kids.len() && kids[i] == target;
                assert(all[i] == target);
            } else {
                let i = choose|i: int| 0 <= i < kept.len() && kept[i] == target;
                assert(all[kids.len() + i] == target);
            }
            assert(owns(d, p, target));
        }
    } else {
        lemma_scan_owns(d, root, target, d.len());
        lemma_scan_is_lower(d, layers, root, target, d.len());
        if let Some(p) = parent {
            lemma_inert_is_owned(d, p, target);
            assert(owns(d, p, target));
        }
    }
    assert forall|i: int| 0 <= i < e.len() implies node_ok(#[trigger] e[i], e.len()) by {
        assert(node_ok(d[i], d.len()));
    }
    lemma_same_owners(d, e, layers);
}

proof fn lemma_lookups_end(
    d: DomView,
    layers: Seq<nat>,
    root: NodePtr,
    target: NodePtr,
    fuel: nat,
)
    requires
        owner_layers(d, layers),
        root < d.len(),
        target < d.len(),
        d.len() <= fuel + layers[target as int] + 1,
    ensures
        lookups_end(d, root, target, fuel),
    decreases fuel,
{
    let (e, parent) = found_parent(d, root, target);
    lemma_found_is_higher(d, layers, root, target);
    if let Some(p) = parent {
        assert(layers[p as int] < d.len());
        lemma_lookups_end(e, layers, root, p, (fuel - 1) as nat);
    }
}

proof fn lemma_chain_keeps_layers(
    d: DomView,
    layers: Seq<nat>,
    root: NodePtr,
    target: NodePtr,
    fuel: nat,
)
    requires
        owner_layers(d, layers),
        root < d.len(),
        target < d.len(),
    ensures
        owner_layers(ancestor_chain(d, root, target, fuel).0, layers),
        ancestor_chain(d, root, target, fuel).0.len() == d.len(),
    decreases fuel,
{
    let (e, parent) = found_parent(d, root, target);
    lemma_found_is_higher(d, layers, root, target);
    if parent is Some && fuel > 0 {
        lemma_chain_keeps_layers(e, layers, root, parent->0, (fuel - 1) as nat);
    }
}

/// Where no node owns itself, every query within every tree ends.
pub proof fn law_acyclic_documents_can_be_queried(d: DomView, root: NodePtr, start: NodePtr)
    requires
        acyclic(d),
        root < d.len(),
        start < d.len(),
    ensures
        query_ends(d, root, start),
        finite_from(d, root, Reach::Inert),
        lookups_end(d, root, start, d.len()),
        acyclic(ancestor_chain(d, root, start, d.len()).0),
{
    let layers = choose|layers: Seq<nat>| owner_layers(d, layers);
    law_acyclic_walks_end(d, root, Reach::Inert);
    law_acyclic_walks_end(d, start, Reach::Children);
    lemma_lookups_end(d, layers, root, start, d.len());
    lemma_chain_keeps_layers(d, layers, root, start, d.len());
}

/// The parent that scripts see lies in a higher layer.
proof fn lemma_script_parent_is_higher(d: DomView, layers: Seq<nat>, n: NodePtr)
    requires
        owner_layers(d, layers),
        n < d.len(),
    ensures
        parent_lookup_ends(d, n),
        owner_layers(script_parent(d, n).0, layers),
        script_parent(d, n).0.len() == d.len(),
        script_parent(d, n).1 matches Some(p) ==> p < d.len() && layers[n as int]
            < layers[p as int],
{
    assert(node_ok(d[n as int], d.len()));
    if !is_root_at(d, n) {
        if let Some(p) = parent_of(d[n as int]) {
            assert(acyclic(d));
            law_acyclic_walks_end(d, p, Reach::Inert);
            lemma_found_is_higher(d, layers, p, n);
        }
    }
}

proof fn lemma_closest_ends(d: DomView, layers: Seq<nat>, root: NodePtr, n: NodePtr, fuel: nat)
    requires
        owner_layers(d, layers),
        root < d.len(),
        n < d.len(),
        d.len() <= fuel + layers[n as int],
    ensures
        closest_ends(d, root, n, fuel),
    decreases fuel,
{
    let e = tried(d, root, n);
    assert(layers[n as int] < d.len());
    assert(acyclic(d));
    law_acyclic_walks_end(d, root, Reach::Inert);
    lemma_lookups_end(d, layers, root, n, d.len());
    lemma_chain_keeps_layers(d, layers, root, n, d.len());
    lemma_found_is_higher(ancestor_chain(d, root, n, d.len()).0, layers, root, n);
    assert(owner_layers(e, layers) && e.len() == d.len());
    lemma_script_parent_is_higher(e, layers, n);
    if let Some(p) = script_parent(e, n).1 {
        lemma_closest_ends(script_parent(e, n).0, layers, root, p, (fuel - 1) as nat);
    }
}

/// Where no node owns itself, climbs from every node end.
pub proof fn law_acyclic_documents_can_be_climbed(d: DomView, root: NodePtr, n: NodePtr)
    requires
        acyclic(d),
        root < d.len(),
        n < d.len(),
    ensures
        closest_ends(d, root, n, d.len()),
        parent_lookup_ends(d, n),
        acyclic(script_parent(d, n).0),
        parent_lookup_ends(script_parent(d, n).0, n),
{
    let layers = choose|layers: Seq<nat>| owner_layers(d, layers);
    lemma_closest_ends(d, layers, root, n, d.len());
    lemma_script_parent_is_higher(d, layers, n);
    lemma_script_parent_is_higher(script_parent(d, n).0, layers, n);
}

proof fn lemma_nearest_root_in_range(d: DomView, n: NodePtr, fuel: nat)
    requires
        closed_links(d),
        n < d.len(),
    ensures
        nearest_root(d, n, fuel) matches Some(root) ==> root < d.len(),
    decreases fuel,
{
    assert(node_ok(d[n as int], d.len()));
    if fuel > 0 && !is_root_at(d, n) && parent_of(d[n as int]) is Some {
        lemma_nearest_root_in_range(d, parent_of(d[n as int])->0, (fuel - 1) as nat);
    }
}

/// In a document with layers for what is rendered, the slots around a slot can
/// be filled and read wherever the climb to its shadow root ends.
pub proof fn law_renderable_slots_can_be_read(d: DomView, slot: NodePtr)
    requires
        renderable(d),
        d.len() <= usize::MAX,
        climb_ends(d, slot, d.len()),
    ensures
        slotting_ends(d, slot),
        renderable(slotted(d, slot, false).0),
{
    let layers = choose|layers: Seq<nat>| render_layers(d, layers);
    let e = slotted(d, slot, false).0;
    lemma_nearest_root_in_range(d, slot, d.len());
    if let Some(root) = nearest_root(d, slot, d.len()) {
        lemma_layers_end_children(d, layers, root, d.len());
        assert(node_ok(d[root as int], d.len()));
        if let Some(host) = parent_of(d[root as int]) {
            lemma_layers_survive_distribution(d, layers, host);
        }
    }
    assert(render_layers(e, layers));
    lemma_layers_end_slots(e, layers, slot, e.len());
}

} // verus!
