//! Which node of the document each rendered node stands for.

use crate::dom::node::{finite_from, links_ok, shadow_root_of, Dom, DomView, NodePtr, Reach};
use crate::dom::shadow::{composed, distributed, slots_end, ShadowTreeBackend,
    SyntheticShadowTreeBackend};
use std::collections::BTreeMap;
use vstd::prelude::*;

verus! {

broadcast use vstd::std_specs::btree::group_btree_axioms;

/// The document with the nodes of it that are rendered, and their ids.
#[verifier::ext_equal]
pub struct Mirror {
    pub dom: DomView,
    pub to_blitz: Map<usize, usize>,
    pub to_legacy: Map<usize, NodePtr>,
}

/// Whether the rendered children of `n` can be computed.
pub open spec fn composable(d: DomView, n: NodePtr) -> bool {
    &&& n < d.len()
    &&& (shadow_root_of(d[n as int]) matches Some(root) ==> finite_from(
        d,
        root,
        Reach::ElementChildren,
    ))
    &&& slots_end(distributed(d, n), n, d.len())
}

/// The rendered children of `n`: its composed children once its light children
/// have been distributed.
pub open spec fn rendered_children(d: DomView, n: NodePtr) -> Seq<NodePtr> {
    composed(distributed(d, n), n, d.len())
}

/// Distributes the light children of `node` and lists its composed children.
pub fn child_nodes_for_blitz(dom: &mut Dom, node: NodePtr) -> (res: Vec<NodePtr>)
    requires
        old(dom).wf(),
        composable(old(dom)@, node),
    ensures
        final(dom).wf(),
        final(dom)@ == distributed(old(dom)@, node),
        final(dom)@.len() == old(dom)@.len(),
        res@ == rendered_children(old(dom)@, node),
        links_ok(res@, old(dom)@.len()),
{
    let backend = SyntheticShadowTreeBackend;
    backend.distribute_slots(dom, node);
    backend.composed_children(dom, node)
}

/// The mirror in which `n` is no longer rendered.
pub open spec fn forgotten(m: Mirror, n: NodePtr) -> Mirror {
    if m.to_blitz.contains_key(n) {
        Mirror {
            to_blitz: m.to_blitz.remove(n),
            to_legacy: m.to_legacy.remove(m.to_blitz[n]),
            ..m
        }
    } else {
        m
    }
}

/// The mirror in which neither `n` nor anything rendered below it is rendered.
pub open spec fn unmapped(m: Mirror, n: NodePtr, fuel: nat) -> Mirror
    decreases fuel, 1nat, 0nat,
{
    let e = forgotten(m, n);
    unmapped_all(
        Mirror { dom: distributed(e.dom, n), ..e },
        rendered_children(e.dom, n),
        fuel,
    )
}

/// The mirror without the subtrees of a list of nodes.
pub open spec fn unmapped_all(m: Mirror, kids: Seq<NodePtr>, fuel: nat) -> Mirror
    decreases fuel, 0nat, kids.len(),
{
    if kids.len() == 0 || fuel == 0 {
        m
    } else {
        unmapped(unmapped_all(m, kids.drop_last(), fuel), kids.last(), (fuel - 1) as nat)
    }
}

/// Whether the walk over what is rendered at and below `n` ends.
pub open spec fn unmap_ends(m: Mirror, n: NodePtr, fuel: nat) -> bool
    decreases fuel, 1nat, 0nat,
{
    let e = forgotten(m, n);
    &&& fuel > 0
    &&& composable(m.dom, n)
    &&& unmap_all_ends(
        Mirror { dom: distributed(e.dom, n), ..e },
        rendered_children(e.dom, n),
        fuel,
    )
}

/// Whether the walk over what is rendered at and below every node of a list
/// ends.
pub open spec fn unmap_all_ends(m: Mirror, kids: Seq<NodePtr>, fuel: nat) -> bool
    decreases fuel, 0nat, kids.len(),
{
    kids.len() == 0 || {
        &&& fuel > 0
        &&& unmap_all_ends(m, kids.drop_last(), fuel)
        &&& unmap_ends(unmapped_all(m, kids.drop_last(), fuel), kids.last(), (fuel - 1) as nat)
    }
}

/// The mirror without the rendered node `id` and what is rendered below it, as
/// far as it can be reached through rendered nodes.
pub open spec fn dropped(m: Mirror, id: usize, fuel: nat) -> Mirror
    decreases fuel, 1nat, 0nat,
{
    if !m.to_legacy.contains_key(id) {
        m
    } else {
        let n = m.to_legacy[id];
        dropped_all(
            Mirror {
                dom: distributed(m.dom, n),
                to_blitz: m.to_blitz.remove(n),
                to_legacy: m.to_legacy.remove(id),
            },
            rendered_children(m.dom, n),
            fuel,
        )
    }
}

/// The mirror without the rendered nodes of a list and what is rendered below
/// them.
pub open spec fn dropped_all(m: Mirror, kids: Seq<NodePtr>, fuel: nat) -> Mirror
    decreases fuel, 0nat, kids.len(),
{
    if kids.len() == 0 || fuel == 0 {
        m
    } else {
        let e = dropped_all(m, kids.drop_last(), fuel);
        if e.to_blitz.contains_key(kids.last()) {
            dropped(e, e.to_blitz[kids.last()], (fuel - 1) as nat)
        } else {
            e
        }
    }
}

/// Whether the rendered children of every node that dropping `id` meets can be
/// computed.
pub open spec fn drop_ready(m: Mirror, id: usize, fuel: nat) -> bool
    decreases fuel, 1nat, 0nat,
{
    m.to_legacy.contains_key(id) ==> {
        let n = m.to_legacy[id];
        &&& fuel > 0
        &&& composable(m.dom, n)
        &&& drop_all_ready(
            Mirror {
                dom: distributed(m.dom, n),
                to_blitz: m.to_blitz.remove(n),
                to_legacy: m.to_legacy.remove(id),
            },
            rendered_children(m.dom, n),
            fuel,
        )
    }
}

/// Whether the rendered children of every node that dropping a list meets can
/// be computed.
pub open spec fn drop_all_ready(m: Mirror, kids: Seq<NodePtr>, fuel: nat) -> bool
    decreases fuel, 0nat, kids.len(),
{
    kids.len() == 0 || {
        let e = dropped_all(m, kids.drop_last(), fuel);
        &&& fuel > 0
        &&& drop_all_ready(m, kids.drop_last(), fuel)
        &&& (e.to_blitz.contains_key(kids.last()) ==> drop_ready(
            e,
            e.to_blitz[kids.last()],
            (fuel - 1) as nat,
        ))
    }
}

fn unmap_within(
    dom: &mut Dom,
    node: NodePtr,
    legacy_to_blitz: &mut BTreeMap<usize, usize>,
    blitz_to_legacy: &mut BTreeMap<usize, NodePtr>,
    Ghost(fuel): Ghost<nat>,
)
    requires
        old(dom).wf(),
        unmap_ends(
            (Mirror {
                dom: old(dom)@,
                to_blitz: old(legacy_to_blitz)@,
                to_legacy: old(blitz_to_legacy)@,
            }),
            node,
            fuel,
        ),
    ensures
        final(dom).wf(),
        (Mirror {
            dom: final(dom)@,
            to_blitz: final(legacy_to_blitz)@,
            to_legacy: final(blitz_to_legacy)@,
        }) == unmapped(
            (Mirror {
                dom: old(dom)@,
                to_blitz: old(legacy_to_blitz)@,
                to_legacy: old(blitz_to_legacy)@,
            }),
            node,
            fuel,
        ),
    decreases fuel,
{
    let ghost start = Mirror {
        dom: dom@,
        to_blitz: legacy_to_blitz@,
        to_legacy: blitz_to_legacy@,
    };
    if let Some(blitz_id) = legacy_to_blitz.remove(&node) {
        let _ = blitz_to_legacy.remove(&blitz_id);
    }
    assert(Mirror { dom: dom@, to_blitz: legacy_to_blitz@, to_legacy: blitz_to_legacy@ }
        =~= forgotten(start, node));
    let kids = child_nodes_for_blitz(dom, node);
    let ghost base = Mirror {
        dom: dom@,
        to_blitz: legacy_to_blitz@,
        to_legacy: blitz_to_legacy@,
    };
    let mut i: usize = 0;
    while i < kids.len()
        invariant
            i <= kids.len(),
            dom.wf(),
            fuel > 0,
            unmap_all_ends(base, kids@, fuel),
            (Mirror { dom: dom@, to_blitz: legacy_to_blitz@, to_legacy: blitz_to_legacy@ })
                == unmapped_all(base, kids@.take(i as int), fuel),
        decreases kids.len() - i,
    {
        proof {
            lemma_unmap_prefix(base, kids@, fuel, i + 1);
            assert(kids@.take(i + 1).drop_last() == kids@.take(i as int));
        }
        unmap_within(dom, kids[i], legacy_to_blitz, blitz_to_legacy, Ghost((fuel - 1) as nat));
        i = i + 1;
    }
    assert(kids@.take(i as int) == kids@);
}

proof fn lemma_unmap_prefix(m: Mirror, kids: Seq<NodePtr>, fuel: nat, k: int)
    requires
        unmap_all_ends(m, kids, fuel),
        0 <= k <= kids.len(),
    ensures
        unmap_all_ends(m, kids.take(k), fuel),
    decreases kids.len(),
{
    if k == kids.len() {
        assert(kids.take(k) == kids);
    } else {
        lemma_unmap_prefix(m, kids.drop_last(), fuel, k);
        assert(kids.drop_last().take(k) == kids.take(k));
    }
}

/// Forgets `node` and everything rendered below it.
pub fn remove_subtree_mapping(
    dom: &mut Dom,
    node: NodePtr,
    legacy_to_blitz: &mut BTreeMap<usize, usize>,
    blitz_to_legacy: &mut BTreeMap<usize, NodePtr>,
)
    requires
        old(dom).wf(),
        unmap_ends(
            (Mirror {
                dom: old(dom)@,
                to_blitz: old(legacy_to_blitz)@,
                to_legacy: old(blitz_to_legacy)@,
            }),
            node,
            old(dom)@.len(),
        ),
    ensures
        final(dom).wf(),
        (Mirror {
            dom: final(dom)@,
            to_blitz: final(legacy_to_blitz)@,
            to_legacy: final(blitz_to_legacy)@,
        }) == unmapped(
            (Mirror {
                dom: old(dom)@,
                to_blitz: old(legacy_to_blitz)@,
                to_legacy: old(blitz_to_legacy)@,
            }),
            node,
            old(dom)@.len(),
        ),
{
    unmap_within(dom, node, legacy_to_blitz, blitz_to_legacy, Ghost(dom@.len()));
}

/// Forgets everything rendered below `node`.
pub fn remove_subtree_mappings_for_children(
    dom: &mut Dom,
    node: NodePtr,
    legacy_to_blitz: &mut BTreeMap<usize, usize>,
    blitz_to_legacy: &mut BTreeMap<usize, NodePtr>,
)
    requires
        old(dom).wf(),
        composable(old(dom)@, node),
        unmap_all_ends(
            (Mirror {
                dom: distributed(old(dom)@, node),
                to_blitz: old(legacy_to_blitz)@,
                to_legacy: old(blitz_to_legacy)@,
            }),
            rendered_children(old(dom)@, node),
            old(dom)@.len(),
        ),
    ensures
        final(dom).wf(),
        (Mirror {
            dom: final(dom)@,
            to_blitz: final(legacy_to_blitz)@,
            to_legacy: final(blitz_to_legacy)@,
        }) == unmapped_all(
            (Mirror {
                dom: distributed(old(dom)@, node),
                to_blitz: old(legacy_to_blitz)@,
                to_legacy: old(blitz_to_legacy)@,
            }),
            rendered_children(old(dom)@, node),
            old(dom)@.len(),
        ),
{
    let ghost fuel = dom@.len();
    let kids = child_nodes_for_blitz(dom, node);
    let ghost base = Mirror {
        dom: dom@,
        to_blitz: legacy_to_blitz@,
        to_legacy: blitz_to_legacy@,
    };
    let mut i: usize = 0;
    while i < kids.len()
        invariant
            i <= kids.len(),
            dom.wf(),
            fuel > 0,
            unmap_all_ends(base, kids@, fuel),
            (Mirror { dom: dom@, to_blitz: legacy_to_blitz@, to_legacy: blitz_to_legacy@ })
                == unmapped_all(base, kids@.take(i as int), fuel),
        decreases kids.len() - i,
    {
        proof {
            lemma_unmap_prefix(base, kids@, fuel, i + 1);
            assert(kids@.take(i + 1).drop_last() == kids@.take(i as int));
        }
        unmap_within(dom, kids[i], legacy_to_blitz, blitz_to_legacy, Ghost((fuel - 1) as nat));
        i = i + 1;
    }
    assert(kids@.take(i as int) == kids@);
}

fn drop_within(
    dom: &mut Dom,
    node_id: usize,
    legacy_to_blitz: &mut BTreeMap<usize, usize>,
    blitz_to_legacy: &mut BTreeMap<usize, NodePtr>,
    Ghost(fuel): Ghost<nat>,
)
    requires
        old(dom).wf(),
        drop_ready(
            (Mirror {
                dom: old(dom)@,
                to_blitz: old(legacy_to_blitz)@,
                to_legacy: old(blitz_to_legacy)@,
            }),
            node_id,
            fuel,
        ),
    ensures
        final(dom).wf(),
        (Mirror {
            dom: final(dom)@,
            to_blitz: final(legacy_to_blitz)@,
            to_legacy: final(blitz_to_legacy)@,
        }) == dropped(
            (Mirror {
                dom: old(dom)@,
                to_blitz: old(legacy_to_blitz)@,
                to_legacy: old(blitz_to_legacy)@,
            }),
            node_id,
            fuel,
        ),
    decreases fuel,
{
    let dom_node: NodePtr = match blitz_to_legacy.remove(&node_id) {
        Some(n) => n,
        None => {
            return ;
        },
    };
    let _ = legacy_to_blitz.remove(&dom_node);
    let kids = child_nodes_for_blitz(dom, dom_node);
    let ghost base = Mirror {
        dom: dom@,
        to_blitz: legacy_to_blitz@,
        to_legacy: blitz_to_legacy@,
    };
    let mut i: usize = 0;
    while i < kids.len()
        invariant
            i <= kids.len(),
            dom.wf(),
            fuel > 0,
            drop_all_ready(base, kids@, fuel),
            (Mirror { dom: dom@, to_blitz: legacy_to_blitz@, to_legacy: blitz_to_legacy@ })
                == dropped_all(base, kids@.take(i as int), fuel),
        decreases kids.len() - i,
    {
        proof {
            lemma_drop_prefix(base, kids@, fuel, i + 1);
            assert(kids@.take(i + 1).drop_last() == kids@.take(i as int));
        }
        let found: Option<usize> = match legacy_to_blitz.get(&kids[i]) {
            Some(id) => Some(*id),
            None => None,
        };
        if let Some(child_id) = found {
            drop_within(
                dom,
                child_id,
                legacy_to_blitz,
                blitz_to_legacy,
                Ghost((fuel - 1) as nat),
            );
        }
        i = i + 1;
    }
    assert(kids@.take(i as int) == kids@);
}

proof fn lemma_drop_prefix(m: Mirror, kids: Seq<NodePtr>, fuel: nat, k: int)
    requires
        drop_all_ready(m, kids, fuel),
        0 <= k <= kids.len(),
    ensures
        drop_all_ready(m, kids.take(k), fuel),
    decreases kids.len(),
{
    if k == kids.len() {
        assert(kids.take(k) == kids);
    } else {
        lemma_drop_prefix(m, kids.drop_last(), fuel, k);
        assert(kids.drop_last().take(k) == kids.take(k));
    }
}

/// Forgets the rendered node `node_id` and what is rendered below it, following
/// rendered nodes alone.
pub fn remove_blitz_subtree_mapping(
    dom: &mut Dom,
    node_id: usize,
    legacy_to_blitz: &mut BTreeMap<usize, usize>,
    blitz_to_legacy: &mut BTreeMap<usize, NodePtr>,
)
    requires
        old(dom).wf(),
        drop_ready(
            (Mirror {
                dom: old(dom)@,
                to_blitz: old(legacy_to_blitz)@,
                to_legacy: old(blitz_to_legacy)@,
            }),
            node_id,
            old(blitz_to_legacy)@.dom().len(),
        ),
    ensures
        final(dom).wf(),
        (Mirror {
            dom: final(dom)@,
            to_blitz: final(legacy_to_blitz)@,
            to_legacy: final(blitz_to_legacy)@,
        }) == dropped(
            (Mirror {
                dom: old(dom)@,
                to_blitz: old(legacy_to_blitz)@,
                to_legacy: old(blitz_to_legacy)@,
            }),
            node_id,
            old(blitz_to_legacy)@.dom().len(),
        ),
        ({
            let before = Mirror {
                dom: old(dom)@,
                to_blitz: old(legacy_to_blitz)@,
                to_legacy: old(blitz_to_legacy)@,
            };
            let after = Mirror {
                dom: final(dom)@,
                to_blitz: final(legacy_to_blitz)@,
                to_legacy: final(blitz_to_legacy)@,
            };
            &&& paired(before) ==> paired(after) && renders_less(after, before)
                && !after.to_legacy.contains_key(node_id)
            &&& !before.to_legacy.contains_key(node_id) ==> after == before
        }),
{
    let ghost before = Mirror {
        dom: dom@,
        to_blitz: legacy_to_blitz@,
        to_legacy: blitz_to_legacy@,
    };
    proof {
        if paired(before) {
            law_dropping_keeps_pairs(before, node_id, before.to_legacy.dom().len());
        }
    }
    drop_within(
        dom,
        node_id,
        legacy_to_blitz,
        blitz_to_legacy,
        Ghost(blitz_to_legacy@.dom().len()),
    );
}

/// Whether both maps say the same: a node is rendered as an id exactly when
/// the id stands for the node.
pub open spec fn paired(m: Mirror) -> bool {
    &&& forall|n: usize| #[trigger]
        m.to_blitz.contains_key(n) ==> m.to_legacy.contains_key(m.to_blitz[n])
            && m.to_legacy[m.to_blitz[n]] == n
    &&& forall|id: usize| #[trigger]
        m.to_legacy.contains_key(id) ==> m.to_blitz.contains_key(m.to_legacy[id])
            && m.to_blitz[m.to_legacy[id]] == id
}

/// Whether `e` renders no node that `m` does not render, and as the same id.
pub open spec fn renders_less(e: Mirror, m: Mirror) -> bool {
    &&& forall|n: usize| #[trigger]
        e.to_blitz.contains_key(n) ==> m.to_blitz.contains_key(n) && e.to_blitz[n] == m.to_blitz[n]
    &&& forall|id: usize| #[trigger]
        e.to_legacy.contains_key(id) ==> m.to_legacy.contains_key(id) && e.to_legacy[id]
            == m.to_legacy[id]
}

/// Forgetting a subtree keeps both maps paired, forgets its root and adds
/// nothing.
pub proof fn law_unmapping_keeps_pairs(m: Mirror, n: NodePtr, fuel: nat)
    requires
        paired(m),
    ensures
        paired(unmapped(m, n, fuel)),
        renders_less(unmapped(m, n, fuel), m),
        !unmapped(m, n, fuel).to_blitz.contains_key(n),
    decreases fuel, 1nat, 0nat,
{
    let e = forgotten(m, n);
    assert(paired(e));
    lemma_unmapping_all(
        Mirror { dom: distributed(e.dom, n), ..e },
        rendered_children(e.dom, n),
        fuel,
    );
}

pub proof fn lemma_unmapping_all(m: Mirror, kids: Seq<NodePtr>, fuel: nat)
    requires
        paired(m),
    ensures
        paired(unmapped_all(m, kids, fuel)),
        renders_less(unmapped_all(m, kids, fuel), m),
    decreases fuel, 0nat, kids.len(),
{
    if kids.len() > 0 && fuel > 0 {
        lemma_unmapping_all(m, kids.drop_last(), fuel);
        law_unmapping_keeps_pairs(
            unmapped_all(m, kids.drop_last(), fuel),
            kids.last(),
            (fuel - 1) as nat,
        );
    }
}

/// Dropping a rendered node keeps both maps paired, forgets its id and adds
/// nothing; dropping an id that stands for nothing changes nothing.
pub proof fn law_dropping_keeps_pairs(m: Mirror, id: usize, fuel: nat)
    requires
        paired(m),
    ensures
        paired(dropped(m, id, fuel)),
        renders_less(dropped(m, id, fuel), m),
        !dropped(m, id, fuel).to_legacy.contains_key(id),
        !m.to_legacy.contains_key(id) ==> dropped(m, id, fuel) == m,
    decreases fuel, 1nat, 0nat,
{
    if m.to_legacy.contains_key(id) {
        let n = m.to_legacy[id];
        let e = Mirror {
            dom: distributed(m.dom, n),
            to_blitz: m.to_blitz.remove(n),
            to_legacy: m.to_legacy.remove(id),
        };
        assert(paired(e));
        lemma_dropping_all(e, rendered_children(m.dom, n), fuel);
    }
}

pub proof fn lemma_dropping_all(m: Mirror, kids: Seq<NodePtr>, fuel: nat)
    requires
        paired(m),
    ensures
        paired(dropped_all(m, kids, fuel)),
        renders_less(dropped_all(m, kids, fuel), m),
    decreases fuel, 0nat, kids.len(),
{
    if kids.len() > 0 && fuel > 0 {
        let e = dropped_all(m, kids.drop_last(), fuel);
        lemma_dropping_all(m, kids.drop_last(), fuel);
        if e.to_blitz.contains_key(kids.last()) {
            law_dropping_keeps_pairs(e, e.to_blitz[kids.last()], (fuel - 1) as nat);
        }
    }
}

} // verus!
