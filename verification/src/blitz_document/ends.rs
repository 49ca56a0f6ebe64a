//! Why walks over what is rendered end.
//!
//! What is rendered below a node can change while it is walked, because light
//! children are distributed on the way. In a document that has layers for what
//! is rendered, every such walk ends nevertheless.

use crate::blitz_document::children::{drop_ids_ready, dropped_ids, emptied, plan_items_end,
    planned_items, refill_ends, refilled, Marked};
use crate::blitz_document::maps::{composable, drop_all_ready, drop_ready, dropped, dropped_all,
    forgotten, rendered_children, unmap_all_ends, unmap_ends, unmapped, unmapped_all, Mirror};
use crate::blitz_document::plan::{blank, inner_namespace, is_transparent, known, node_op, opened,
    plan_child_ends, plan_children_end, plan_ends, plan_list_ends, plan_shadow_ends, planned,
    planned_child, planned_children, planned_list, planned_shadow, shadow_op, DraftView,
    RenderOpView, RenderRef};
use crate::blitz_document::render::RenderView;
use crate::blitz_document::sync::{child_ids_at, namespace_at};
use crate::blitz_document::validate::{forward, forward_ready};
use crate::dom::layers::{lemma_composed_is_lower, lemma_layers_end_children, lemma_layers_end_slots,
    lemma_layers_survive_distribution, lemma_root_is_lower, render_layers, renderable};
use crate::dom::node::{shadow_root_of, DomView, NodePtr};
use crate::dom::shadow::{distributed, is_root_at};
use vstd::prelude::*;

verus! {

/// Whether the nodes of a list lie below a layer.
spec fn lower(d: DomView, layers: Seq<nat>, list: Seq<NodePtr>, bound: nat) -> bool {
    forall|i: int|
        0 <= i < list.len() ==> (#[trigger] list[i]) < d.len() && layers[list[i] as int] < bound
}

proof fn lemma_lower_front(d: DomView, layers: Seq<nat>, list: Seq<NodePtr>, bound: nat)
    requires
        lower(d, layers, list, bound),
        list.len() > 0,
    ensures
        lower(d, layers, list.drop_last(), bound),
        list.last() < d.len(),
        layers[list.last() as int] < bound,
{
    assert(list[list.len() - 1] == list.last());
    assert forall|i: int| 0 <= i < list.drop_last().len() implies (#[trigger] list.drop_last()[i])
        < d.len() && layers[list.drop_last()[i] as int] < bound by {
        assert(list[i] == list.drop_last()[i]);
    }
}

proof fn lemma_rendered_is_lower(d: DomView, layers: Seq<nat>, n: NodePtr)
    requires
        render_layers(d, layers),
        d.len() <= usize::MAX,
        n < d.len(),
    ensures
        composable(d, n),
        render_layers(distributed(d, n), layers),
        distributed(d, n).len() == d.len(),
        lower(d, layers, rendered_children(d, n), layers[n as int]),
{
    if shadow_root_of(d[n as int]) is Some {
        lemma_root_is_lower(d, layers, n);
        lemma_layers_end_children(d, layers, shadow_root_of(d[n as int])->0, d.len());
    }
    lemma_layers_survive_distribution(d, layers, n);
    lemma_layers_end_slots(distributed(d, n), layers, n, d.len());
    lemma_composed_is_lower(distributed(d, n), layers, n, d.len());
}

proof fn lemma_plan_shadow(
    to_blitz: Map<usize, usize>,
    w: DraftView,
    layers: Seq<nat>,
    root: NodePtr,
    ns: Seq<char>,
    mode: Seq<char>,
    fuel: nat,
)
    requires
        render_layers(w.dom, layers),
        w.dom.len() <= usize::MAX,
        root < w.dom.len(),
        layers[root as int] < fuel,
    ensures
        plan_shadow_ends(to_blitz, w, root, ns, mode, fuel),
        render_layers(planned_shadow(to_blitz, w, root, ns, mode, fuel).draft.dom, layers),
        planned_shadow(to_blitz, w, root, ns, mode, fuel).draft.dom.len() == w.dom.len(),
    decreases fuel, 1nat, 0nat,
{
    if known(to_blitz, w, root) is None {
        let e = opened(w, root, shadow_op(w.dom, root, ns, mode));
        lemma_rendered_is_lower(w.dom, layers, root);
        lemma_plan_children(
            to_blitz,
            DraftView { dom: distributed(w.dom, root), ..e },
            layers,
            RenderRef::New(w.created.len() as usize),
            rendered_children(w.dom, root),
            ns,
            fuel,
        );
    }
}

proof fn lemma_plan(
    to_blitz: Map<usize, usize>,
    w: DraftView,
    layers: Seq<nat>,
    n: NodePtr,
    ns: Seq<char>,
    fuel: nat,
)
    requires
        render_layers(w.dom, layers),
        w.dom.len() <= usize::MAX,
        n < w.dom.len(),
        layers[n as int] < fuel,
    ensures
        plan_ends(to_blitz, w, n, ns, fuel),
        render_layers(planned(to_blitz, w, n, ns, fuel).draft.dom, layers),
        planned(to_blitz, w, n, ns, fuel).draft.dom.len() == w.dom.len(),
    decreases fuel, 2nat, 0nat,
{
    if known(to_blitz, w, n) is None {
        if is_root_at(w.dom, n) {
            lemma_plan_shadow(to_blitz, w, layers, n, ns, "open"@, fuel);
        } else if !(w.dom[n as int] is Text || w.dom[n as int] is Comment) {
            let e = opened(w, n, node_op(w.dom[n as int], ns));
            lemma_rendered_is_lower(w.dom, layers, n);
            lemma_plan_children(
                to_blitz,
                DraftView { dom: distributed(w.dom, n), ..e },
                layers,
                RenderRef::New(w.created.len() as usize),
                rendered_children(w.dom, n),
                inner_namespace(w.dom[n as int], ns),
                fuel,
            );
        }
    }
}

proof fn lemma_plan_children(
    to_blitz: Map<usize, usize>,
    w: DraftView,
    layers: Seq<nat>,
    parent: RenderRef,
    kids: Seq<NodePtr>,
    ns: Seq<char>,
    fuel: nat,
)
    requires
        render_layers(w.dom, layers),
        w.dom.len() <= usize::MAX,
        fuel > 0,
        lower(w.dom, layers, kids, (fuel - 1) as nat),
    ensures
        plan_children_end(to_blitz, w, parent, kids, ns, fuel),
        render_layers(planned_children(to_blitz, w, parent, kids, ns, fuel).dom, layers),
        planned_children(to_blitz, w, parent, kids, ns, fuel).dom.len() == w.dom.len(),
    decreases fuel, 0nat, kids.len(),
{
    if kids.len() > 0 {
        lemma_lower_front(w.dom, layers, kids, (fuel - 1) as nat);
        lemma_plan_children(to_blitz, w, layers, parent, kids.drop_last(), ns, fuel);
        lemma_plan(
            to_blitz,
            planned_children(to_blitz, w, parent, kids.drop_last(), ns, fuel),
            layers,
            kids.last(),
            ns,
            (fuel - 1) as nat,
        );
    }
}

proof fn lemma_plan_list(
    to_blitz: Map<usize, usize>,
    w: DraftView,
    layers: Seq<nat>,
    kids: Seq<NodePtr>,
    ns: Seq<char>,
    fuel: nat,
)
    requires
        render_layers(w.dom, layers),
        w.dom.len() <= usize::MAX,
        lower(w.dom, layers, kids, fuel),
    ensures
        plan_list_ends(to_blitz, w, kids, ns, fuel),
        render_layers(planned_list(to_blitz, w, kids, ns, fuel).draft.dom, layers),
        planned_list(to_blitz, w, kids, ns, fuel).draft.dom.len() == w.dom.len(),
    decreases kids.len(),
{
    if kids.len() > 0 {
        lemma_lower_front(w.dom, layers, kids, fuel);
        lemma_plan_list(to_blitz, w, layers, kids.drop_last(), ns, fuel);
        lemma_plan(
            to_blitz,
            planned_list(to_blitz, w, kids.drop_last(), ns, fuel).draft,
            layers,
            kids.last(),
            ns,
            fuel,
        );
    }
}

proof fn lemma_plan_child(
    to_blitz: Map<usize, usize>,
    w: DraftView,
    layers: Seq<nat>,
    child: NodePtr,
    ns: Seq<char>,
)
    requires
        render_layers(w.dom, layers),
        w.dom.len() <= usize::MAX,
        child < w.dom.len(),
    ensures
        plan_child_ends(to_blitz, w, child, ns, w.dom.len()),
        render_layers(planned_child(to_blitz, w, child, ns, w.dom.len()).draft.dom, layers),
        planned_child(to_blitz, w, child, ns, w.dom.len()).draft.dom.len() == w.dom.len(),
{
    if is_transparent(w.dom, child) {
        lemma_rendered_is_lower(w.dom, layers, child);
        let kids = rendered_children(w.dom, child);
        assert forall|i: int| 0 <= i < kids.len() implies (#[trigger] kids[i]) < w.dom.len()
            && layers[kids[i] as int] < w.dom.len() by {}
        lemma_plan_list(
            to_blitz,
            DraftView { dom: distributed(w.dom, child), ..w },
            layers,
            kids,
            ns,
            w.dom.len(),
        );
    } else {
        lemma_plan(to_blitz, w, layers, child, ns, w.dom.len());
    }
}

proof fn lemma_plan_items(
    to_blitz: Map<usize, usize>,
    w: DraftView,
    layers: Seq<nat>,
    kids: Seq<NodePtr>,
    ns: Seq<char>,
    marked: Option<Marked>,
)
    requires
        render_layers(w.dom, layers),
        w.dom.len() <= usize::MAX,
        lower(w.dom, layers, kids, w.dom.len()),
    ensures
        plan_items_end(to_blitz, w, kids, ns, marked),
        render_layers(planned_items(to_blitz, w, kids, ns, marked).draft.dom, layers),
        planned_items(to_blitz, w, kids, ns, marked).draft.dom.len() == w.dom.len(),
    decreases kids.len(),
{
    if kids.len() > 0 {
        lemma_lower_front(w.dom, layers, kids, w.dom.len());
        lemma_plan_items(to_blitz, w, layers, kids.drop_last(), ns, marked);
        let before = planned_items(to_blitz, w, kids.drop_last(), ns, marked).draft;
        if marked is Some && marked->0.root == kids.last() {
            lemma_plan_shadow(
                to_blitz,
                before,
                layers,
                kids.last(),
                ns,
                marked->0.mode,
                before.dom.len(),
            );
        } else {
            lemma_plan_child(to_blitz, before, layers, kids.last(), ns);
        }
    }
}

/// In a document with layers for what is rendered, everything that renders a
/// node, its children or what inserting it inserts can be planned, and the
/// document keeps its layers.
pub proof fn law_renderable_nodes_can_be_planned(
    to_blitz: Map<usize, usize>,
    w: DraftView,
    n: NodePtr,
    parent: RenderRef,
    ns: Seq<char>,
    mode: Seq<char>,
)
    requires
        renderable(w.dom),
        w.dom.len() <= usize::MAX,
        n < w.dom.len(),
    ensures
        composable(w.dom, n),
        renderable(distributed(w.dom, n)),
        plan_ends(to_blitz, w, n, ns, w.dom.len()),
        renderable(planned(to_blitz, w, n, ns, w.dom.len()).draft.dom),
        plan_shadow_ends(to_blitz, w, n, ns, mode, w.dom.len()),
        renderable(planned_shadow(to_blitz, w, n, ns, mode, w.dom.len()).draft.dom),
        plan_child_ends(to_blitz, w, n, ns, w.dom.len()),
        renderable(planned_child(to_blitz, w, n, ns, w.dom.len()).draft.dom),
        plan_children_end(
            to_blitz,
            (DraftView { dom: distributed(w.dom, n), ..w }),
            parent,
            rendered_children(w.dom, n),
            ns,
            w.dom.len(),
        ),
        renderable(
            planned_children(
                to_blitz,
                (DraftView { dom: distributed(w.dom, n), ..w }),
                parent,
                rendered_children(w.dom, n),
                ns,
                w.dom.len(),
            ).dom,
        ),
{
    let layers = choose|layers: Seq<nat>| render_layers(w.dom, layers);
    lemma_rendered_is_lower(w.dom, layers, n);
    lemma_plan(to_blitz, w, layers, n, ns, w.dom.len());
    lemma_plan_shadow(to_blitz, w, layers, n, ns, mode, w.dom.len());
    lemma_plan_child(to_blitz, w, layers, n, ns);
    let kids = rendered_children(w.dom, n);
    assert forall|i: int| 0 <= i < kids.len() implies (#[trigger] kids[i]) < w.dom.len()
        && layers[kids[i] as int] < (w.dom.len() - 1) as nat by {}
    lemma_plan_children(
        to_blitz,
        DraftView { dom: distributed(w.dom, n), ..w },
        layers,
        parent,
        kids,
        ns,
        w.dom.len(),
    );
}

proof fn lemma_unmap(m: Mirror, layers: Seq<nat>, n: NodePtr, fuel: nat)
    requires
        render_layers(m.dom, layers),
        m.dom.len() <= usize::MAX,
        n < m.dom.len(),
        layers[n as int] < fuel,
    ensures
        unmap_ends(m, n, fuel),
        render_layers(unmapped(m, n, fuel).dom, layers),
        unmapped(m, n, fuel).dom.len() == m.dom.len(),
    decreases fuel, 1nat, 0nat,
{
    let e = forgotten(m, n);
    lemma_rendered_is_lower(m.dom, layers, n);
    lemma_unmap_all(
        Mirror { dom: distributed(e.dom, n), ..e },
        layers,
        rendered_children(e.dom, n),
        fuel,
    );
}

proof fn lemma_unmap_all(m: Mirror, layers: Seq<nat>, kids: Seq<NodePtr>, fuel: nat)
    requires
        render_layers(m.dom, layers),
        m.dom.len() <= usize::MAX,
        fuel > 0,
        lower(m.dom, layers, kids, (fuel - 1) as nat),
    ensures
        unmap_all_ends(m, kids, fuel),
        render_layers(unmapped_all(m, kids, fuel).dom, layers),
        unmapped_all(m, kids, fuel).dom.len() == m.dom.len(),
    decreases fuel, 0nat, kids.len(),
{
    if kids.len() > 0 {
        lemma_lower_front(m.dom, layers, kids, (fuel - 1) as nat);
        lemma_unmap_all(m, layers, kids.drop_last(), fuel);
        lemma_unmap(
            unmapped_all(m, kids.drop_last(), fuel),
            layers,
            kids.last(),
            (fuel - 1) as nat,
        );
    }
}

/// In a document with layers for what is rendered, a subtree and the children
/// of a node can be taken out of the mirror, and the document keeps its layers.
pub proof fn law_renderable_nodes_can_be_unmapped(m: Mirror, n: NodePtr)
    requires
        renderable(m.dom),
        m.dom.len() <= usize::MAX,
        n < m.dom.len(),
    ensures
        unmap_ends(m, n, m.dom.len()),
        renderable(unmapped(m, n, m.dom.len()).dom),
        composable(m.dom, n),
        unmap_all_ends(
            (Mirror { dom: distributed(m.dom, n), ..m }),
            rendered_children(m.dom, n),
            m.dom.len(),
        ),
        renderable(
            unmapped_all(
                (Mirror { dom: distributed(m.dom, n), ..m }),
                rendered_children(m.dom, n),
                m.dom.len(),
            ).dom,
        ),
{
    let layers = choose|layers: Seq<nat>| render_layers(m.dom, layers);
    lemma_rendered_is_lower(m.dom, layers, n);
    lemma_unmap(m, layers, n, m.dom.len());
    lemma_unmap_all(
        Mirror { dom: distributed(m.dom, n), ..m },
        layers,
        rendered_children(m.dom, n),
        m.dom.len(),
    );
}

/// Whether every rendered node stands for a node of the document.
pub open spec fn in_range(m: Mirror) -> bool {
    &&& m.to_legacy.dom().finite()
    &&& forall|id: usize| #[trigger] m.to_legacy.contains_key(id) ==> m.to_legacy[id] < m.dom.len()
}

proof fn lemma_drop(m: Mirror, layers: Seq<nat>, id: usize, fuel: nat)
    requires
        render_layers(m.dom, layers),
        m.dom.len() <= usize::MAX,
        in_range(m),
        m.to_legacy.dom().len() <= fuel,
    ensures
        drop_ready(m, id, fuel),
        render_layers(dropped(m, id, fuel).dom, layers),
        dropped(m, id, fuel).dom.len() == m.dom.len(),
        in_range(dropped(m, id, fuel)),
        dropped(m, id, fuel).to_legacy.dom().len() <= m.to_legacy.dom().len(),
    decreases fuel, 1nat, 0nat,
{
    if m.to_legacy.contains_key(id) {
        let n = m.to_legacy[id];
        let e = Mirror {
            dom: distributed(m.dom, n),
            to_blitz: m.to_blitz.remove(n),
            to_legacy: m.to_legacy.remove(id),
        };
        lemma_rendered_is_lower(m.dom, layers, n);
        assert(e.to_legacy.dom() =~= m.to_legacy.dom().remove(id));
        lemma_drop_all(e, layers, rendered_children(m.dom, n), fuel);
    }
}

proof fn lemma_drop_all(m: Mirror, layers: Seq<nat>, kids: Seq<NodePtr>, fuel: nat)
    requires
        render_layers(m.dom, layers),
        m.dom.len() <= usize::MAX,
        in_range(m),
        m.to_legacy.dom().len() < fuel,
    ensures
        drop_all_ready(m, kids, fuel),
        render_layers(dropped_all(m, kids, fuel).dom, layers),
        dropped_all(m, kids, fuel).dom.len() == m.dom.len(),
        in_range(dropped_all(m, kids, fuel)),
        dropped_all(m, kids, fuel).to_legacy.dom().len() <= m.to_legacy.dom().len(),
    decreases fuel, 0nat, kids.len(),
{
    if kids.len() > 0 {
        lemma_drop_all(m, layers, kids.drop_last(), fuel);
        let e = dropped_all(m, kids.drop_last(), fuel);
        if e.to_blitz.contains_key(kids.last()) {
            lemma_drop(e, layers, e.to_blitz[kids.last()], (fuel - 1) as nat);
        }
    }
}

proof fn lemma_drop_ids(m: Mirror, layers: Seq<nat>, ids: Seq<usize>)
    requires
        render_layers(m.dom, layers),
        m.dom.len() <= usize::MAX,
        in_range(m),
    ensures
        drop_ids_ready(m, ids),
        render_layers(dropped_ids(m, ids).dom, layers),
        dropped_ids(m, ids).dom.len() == m.dom.len(),
        in_range(dropped_ids(m, ids)),
    decreases ids.len(),
{
    if ids.len() > 0 {
        lemma_drop_ids(m, layers, ids.drop_last());
        let before = dropped_ids(m, ids.drop_last());
        lemma_drop(before, layers, ids.last(), before.to_legacy.dom().len());
    }
}

/// In a document with layers for what is rendered, a rendered subtree can be
/// dropped from the mirror, and the document keeps its layers.
pub proof fn law_renderable_nodes_can_be_dropped(m: Mirror, id: usize)
    requires
        renderable(m.dom),
        m.dom.len() <= usize::MAX,
        in_range(m),
    ensures
        drop_ready(m, id, m.to_legacy.dom().len()),
        renderable(dropped(m, id, m.to_legacy.dom().len()).dom),
        in_range(dropped(m, id, m.to_legacy.dom().len())),
{
    let layers = choose|layers: Seq<nat>| render_layers(m.dom, layers);
    lemma_drop(m, layers, id, m.to_legacy.dom().len());
}

/// In a document with layers for what is rendered, the rendered children of any
/// node can be replaced, and the document keeps its layers.
pub proof fn law_renderable_nodes_can_be_refilled(
    m: Mirror,
    t: RenderView,
    parent: NodePtr,
    id: usize,
    marked: Option<Marked>,
)
    requires
        renderable(m.dom),
        m.dom.len() <= usize::MAX,
        in_range(m),
        parent < m.dom.len(),
    ensures
        refill_ends(m, t, parent, id, marked),
        renderable(refilled(m, t, parent, id, marked).draft.dom),
{
    let layers = choose|layers: Seq<nat>| render_layers(m.dom, layers);
    lemma_drop_ids(m, layers, child_ids_at(t, id));
    let e = emptied(m, t, id);
    lemma_rendered_is_lower(e.dom, layers, parent);
    let kids = rendered_children(e.dom, parent);
    assert forall|i: int| 0 <= i < kids.len() implies (#[trigger] kids[i]) < e.dom.len()
        && layers[kids[i] as int] < e.dom.len() by {}
    lemma_plan_items(
        e.to_blitz,
        DraftView {
            ops: seq![RenderOpView::DropAllChildren(id)],
            ..blank(distributed(e.dom, parent))
        },
        layers,
        kids,
        namespace_at(t, id),
        marked,
    );
}

proof fn lemma_forward(
    operation: Seq<char>,
    m: Mirror,
    layers: Seq<nat>,
    t: RenderView,
    keys: Seq<usize>,
)
    requires
        render_layers(m.dom, layers),
        m.dom.len() <= usize::MAX,
        in_range(m),
    ensures
        forward_ready(operation, m, t, keys),
        render_layers(forward(operation, m, t, keys).dom, layers),
        forward(operation, m, t, keys).dom.len() == m.dom.len(),
    decreases keys.len(),
{
    if keys.len() > 0 {
        lemma_forward(operation, m, layers, t, keys.drop_last());
        let d = forward(operation, m, t, keys.drop_last()).dom;
        let n = keys.last();
        let id = m.to_blitz[n];
        if m.to_legacy.contains_key(id) && m.to_legacy[id] == n {
            lemma_rendered_is_lower(d, layers, n);
        }
    }
}

/// In a document with layers for what is rendered, the mirror can be held
/// against any tree, and the document keeps its layers.
pub proof fn law_renderable_mirrors_can_be_checked(
    operation: Seq<char>,
    m: Mirror,
    t: RenderView,
    keys: Seq<usize>,
)
    requires
        renderable(m.dom),
        m.dom.len() <= usize::MAX,
        in_range(m),
    ensures
        forward_ready(operation, m, t, keys),
        renderable(forward(operation, m, t, keys).dom),
{
    let layers = choose|layers: Seq<nat>| render_layers(m.dom, layers);
    lemma_forward(operation, m, layers, t, keys);
}

} // verus!
