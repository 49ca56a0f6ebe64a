//! What the composed tree shows.

use crate::dom::node::{children_of, parent_of, DomView, NodePtr, NodeView};
use crate::dom::routes::{above, gathered, gathered_all, lemma_above_parent,
    lemma_gathered_lists_all, lists_all, routes_end, Below};
use crate::dom::shadow::{climb_ends, composed, composes_children, flattened, is_root_at, is_slot,
    nearest_root, slots_end};
use vstd::prelude::*;

verus! {

/// Whether a slot shows its own children: it hosts nothing and got no nodes.
pub open spec fn falls_back(n: NodeView) -> bool {
    n matches NodeView::Element(el) && el.tag_name == "slot"@ && el.shadow_root is None
        && el.assigned_nodes.len() == 0
}

/// The child list of `n`, and those of the slots that show their own children.
pub open spec fn fallback_lists(d: DomView, n: NodePtr) -> Below {
    |m: NodePtr|
        match d[m as int] {
            NodeView::Document { children, mode } => if m == n {
                children
            } else {
                Seq::empty()
            },
            NodeView::Element(el) => if m == n || falls_back(d[m as int]) {
                el.children
            } else {
                Seq::empty()
            },
            _ => Seq::empty(),
        }
}

/// What a child shows in its place: a slot what it hosts or was assigned, any
/// other node itself. A slot that shows its own children adds nothing to them.
pub open spec fn shown_at(d: DomView, n: NodePtr) -> spec_fn(NodePtr) -> Seq<NodePtr> {
    |m: NodePtr|
        if m == n {
            Seq::empty()
        } else {
            match d[m as int] {
                NodeView::Element(el) => if el.tag_name != "slot"@ {
                    seq![m]
                } else {
                    match el.shadow_root {
                        Some(root) => seq![root],
                        None => el.assigned_nodes,
                    }
                },
                _ => seq![m],
            }
        }
}

/// A host shows its shadow root alone, and a slot the nodes it was assigned. Any
/// other node shows its children in their order, with the slots among them opened
/// up: nodes come in a slot's place, down through slots in slots.
pub proof fn law_composed_children_are_those_shown(d: DomView, n: NodePtr)
    requires
        slots_end(d, n, d.len()),
        routes_end(fallback_lists(d, n), n, d.len()),
    ensures
        match d[n as int] {
            NodeView::Element(el) => {
                let assigned = el.tag_name == "slot"@ && el.assigned_nodes.len() > 0;
                &&& el.shadow_root matches Some(root) ==> composed(d, n, d.len()) == seq![root]
                &&& el.shadow_root is None && assigned ==> composed(d, n, d.len())
                    == el.assigned_nodes
                &&& el.shadow_root is None && !assigned ==> lists_all(
                    shown_at(d, n),
                    fallback_lists(d, n),
                    n,
                    composed(d, n, d.len()),
                )
            },
            NodeView::Document { children, mode } => lists_all(
                shown_at(d, n),
                fallback_lists(d, n),
                n,
                composed(d, n, d.len()),
            ),
            _ => composed(d, n, d.len()).len() == 0,
        },
{
    if composes_children(d[n as int]) {
        let own = shown_at(d, n);
        let below = fallback_lists(d, n);
        let kids = below(n);
        assert(kids =~= children_of(d[n as int]));
        lemma_gathered_lists_all(own, below, n, d.len());
        let most = lemma_longest_route(below, n, d.len());
        assert forall|i: int| 0 <= i < kids.len() implies routes_end(
            below,
            #[trigger] kids[i],
            (most - 1) as nat,
        ) by {
            assert(below(n)[i] == kids[i]);
        }
        lemma_flattened_gathered(d, n, kids, d.len(), most);
        assert(gathered(own, below, n, d.len()) =~= composed(d, n, d.len()));
    }
}

proof fn lemma_longer_routes_end(below: Below, n: NodePtr, fuel: nat)
    requires
        routes_end(below, n, fuel),
    ensures
        routes_end(below, n, fuel + 1),
    decreases fuel,
{
    assert forall|i: int| 0 <= i < below(n).len() implies routes_end(
        below,
        #[trigger] below(n)[i],
        fuel,
    ) by {
        lemma_longer_routes_end(below, below(n)[i], (fuel - 1) as nat);
    }
}

/// The number of nodes on the longest route.
proof fn lemma_longest_route(below: Below, n: NodePtr, fuel: nat) -> (most: nat)
    requires
        routes_end(below, n, fuel),
    ensures
        0 < most <= fuel,
        routes_end(below, n, most),
        !routes_end(below, n, (most - 1) as nat),
    decreases fuel,
{
    if routes_end(below, n, (fuel - 1) as nat) {
        lemma_longest_route(below, n, (fuel - 1) as nat)
    } else {
        fuel
    }
}

proof fn lemma_flattened_gathered(d: DomView, n: NodePtr, kids: Seq<NodePtr>, fuel: nat, most: nat)
    requires
        0 < most <= fuel,
        forall|i: int|
            0 <= i < kids.len() ==> routes_end(
                fallback_lists(d, n),
                #[trigger] kids[i],
                (most - 1) as nat,
            ),
        !routes_end(fallback_lists(d, n), n, (most - 1) as nat),
    ensures
        flattened(d, kids, fuel) == gathered_all(shown_at(d, n), fallback_lists(d, n), kids, fuel),
    decreases fuel, kids.len(),
{
    let own = shown_at(d, n);
    let below = fallback_lists(d, n);
    if kids.len() > 0 {
        let front = kids.drop_last();
        let last = kids.last();
        assert(kids[kids.len() - 1] == last);
        assert(last != n);
        assert forall|i: int| 0 <= i < front.len() implies routes_end(
            below,
            #[trigger] front[i],
            (most - 1) as nat,
        ) by {
            assert(front[i] == kids[i]);
        }
        lemma_flattened_gathered(d, n, front, fuel, most);
        let less = (fuel - 1) as nat;
        if falls_back(d[last as int]) {
            let inner = below(last);
            assert forall|i: int| 0 <= i < inner.len() implies routes_end(
                below,
                #[trigger] inner[i],
                (most - 2) as nat,
            ) by {
                assert(below(last)[i] == inner[i]);
            }
            if routes_end(below, n, (most - 2) as nat) {
                lemma_longer_routes_end(below, n, (most - 2) as nat);
            }
            lemma_flattened_gathered(d, n, inner, less, (most - 1) as nat);
            assert(gathered(own, below, last, less) =~= composed(d, last, less));
        } else {
            assert(below(last) =~= Seq::<NodePtr>::empty());
            assert(gathered_all(own, below, below(last), less) =~= Seq::<NodePtr>::empty());
            assert(gathered(own, below, last, less) =~= own(last));
            assert(own(last) =~= (if is_slot(d[last as int]) {
                composed(d, last, less)
            } else {
                seq![last]
            }));
        }
        assert(is_slot(d[last as int]) || !falls_back(d[last as int]));
    }
}

/// The shadow root of a node is the first one met on the way up from it; it has
/// none where none is met before the way ends.
pub proof fn law_nearest_root_is_met_first(d: DomView, n: NodePtr)
    requires
        climb_ends(d, n, d.len()),
    ensures
        match nearest_root(d, n, d.len()) {
            Some(root) => is_root_at(d, root) && exists|k: nat| #[trigger]
                above(d, n, k) == Some(root) && forall|j: nat|
                    j < k ==> (#[trigger] above(d, n, j) matches Some(m) && !is_root_at(d, m)),
            None => forall|k: nat|
                (#[trigger] above(d, n, k)) matches Some(m) ==> !is_root_at(d, m),
        },
{
    lemma_root_met(d, n, d.len());
}

proof fn lemma_root_met(d: DomView, n: NodePtr, fuel: nat)
    requires
        climb_ends(d, n, fuel),
    ensures
        match nearest_root(d, n, fuel) {
            Some(root) => is_root_at(d, root) && exists|k: nat| #[trigger]
                above(d, n, k) == Some(root) && forall|j: nat|
                    j < k ==> (#[trigger] above(d, n, j) matches Some(m) && !is_root_at(d, m)),
            None => forall|k: nat|
                (#[trigger] above(d, n, k)) matches Some(m) ==> !is_root_at(d, m),
        },
    decreases fuel,
{
    assert(above(d, n, 0) == Some(n));
    if !is_root_at(d, n) {
        match parent_of(d[n as int]) {
            Some(p) => {
                lemma_root_met(d, p, (fuel - 1) as nat);
                match nearest_root(d, n, fuel) {
                    Some(root) => {
                        let k = choose|k: nat| #[trigger]
                            above(d, p, k) == Some(root) && forall|j: nat|
                                j < k ==> (#[trigger] above(d, p, j) matches Some(m)
                                    && !is_root_at(d, m));
                        lemma_above_parent(d, n, k + 1);
                        assert forall|j: nat| j < k + 1 implies (#[trigger] above(
                            d,
                            n,
                            j,
                        ) matches Some(m) && !is_root_at(d, m)) by {
                            if j > 0 {
                                lemma_above_parent(d, n, j);
                                assert(above(d, p, (j - 1) as nat) is Some);
                            }
                        }
                        assert(above(d, n, k + 1) == Some(root));
                    },
                    None => {
                        assert forall|k: nat|
                            (#[trigger] above(d, n, k)) matches Some(m) implies !is_root_at(
                            d,
                            above(d, n, k)->0,
                        ) by {
                            if k > 0 {
                                lemma_above_parent(d, n, k);
                                assert(above(d, p, (k - 1) as nat) == above(d, n, k));
                            }
                        }
                    },
                }
            },
            None => {
                assert forall|k: nat|
                    (#[trigger] above(d, n, k)) matches Some(m) implies !is_root_at(
                    d,
                    above(d, n, k)->0,
                ) by {
                    if k > 0 {
                        lemma_above_parent(d, n, k);
                    }
                }
            },
        }
    }
}

} // verus!
