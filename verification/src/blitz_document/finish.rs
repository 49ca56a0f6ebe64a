//! Taking note of what the renderer did.

use crate::blitz_document::document::{finished, finished_dom, mirror_of, tree_view, BlitzDocument,
    BlitzState};
use crate::blitz_document::maps::{paired, remove_subtree_mapping, unmap_ends, unmapped, Mirror};
use crate::blitz_document::render::RenderTree;
use crate::blitz_document::sync::{MirrorPlan, PlanView, Reported};
use crate::blitz_document::validate::forward_ready;
use crate::dom::node::{Dom, DomView, NodePtr};
use crate::order::in_increasing_order;
use vstd::prelude::*;

verus! {

broadcast use vstd::std_specs::btree::group_btree_axioms;

/// The document in which every node that got an id is rendered as that id.
pub open spec fn committed(s: BlitzState, created: Seq<NodePtr>, ids: Seq<usize>) -> BlitzState
    decreases ids.len(),
{
    if ids.len() == 0 {
        s
    } else {
        let before = committed(s, created, ids.drop_last());
        let n = created[ids.len() - 1];
        BlitzState {
            to_blitz: before.to_blitz.insert(n, ids.last()),
            to_legacy: before.to_legacy.insert(ids.last(), n),
            ..before
        }
    }
}

/// The mirror once a plan has run: its nodes have their ids, and what it was
/// to forget is forgotten.
pub open spec fn settled(s: BlitzState, d: DomView, plan: PlanView, ids: Seq<usize>, ran: bool) -> Mirror {
    let m = mirror_of(committed(s, plan.created, ids), d);
    if ran && plan.complete && plan.forget is Some {
        unmapped(m, plan.forget->0, d.len())
    } else {
        m
    }
}

/// The document once a plan has run, before it is recorded.
pub open spec fn settled_state(
    s: BlitzState,
    d: DomView,
    plan: PlanView,
    ids: Seq<usize>,
    ran: bool,
) -> BlitzState {
    let m = settled(s, d, plan, ids, ran);
    BlitzState { to_blitz: m.to_blitz, to_legacy: m.to_legacy, ..s }
}

/// The rendered node that a record names.
pub open spec fn reported_id(reported: Reported, to_blitz: Map<usize, usize>) -> Option<usize> {
    match reported {
        Reported::Id(id) => Some(id),
        Reported::Node(n) => to_blitz.get(n),
        Reported::NodeOr(n, id) => if to_blitz.contains_key(n) {
            Some(to_blitz[n])
        } else {
            Some(id)
        },
    }
}

impl BlitzDocument {
    /// Takes note of the ids of the first nodes of `created`, in order.
    pub fn commit(&mut self, created: &Vec<NodePtr>, ids: &Vec<usize>)
        requires
            ids@.len() <= created@.len(),
        ensures
            final(self)@ == committed(old(self)@, created@, ids@),
    {
        let ghost s = self@;
        let mut i: usize = 0;
        while i < ids.len()
            invariant
                i <= ids.len(),
                ids@.len() <= created@.len(),
                self@ == committed(s, created@, ids@.take(i as int)),
            decreases ids.len() - i,
        {
            proof {
                assert(ids@.take(i + 1).drop_last() == ids@.take(i as int));
                assert(ids@.take(i + 1).last() == ids@[i as int]);
            }
            let _ = self.legacy_to_blitz.insert(created[i], ids[i]);
            let _ = self.blitz_to_legacy.insert(ids[i], created[i]);
            assert(self@ =~= committed(s, created@, ids@.take(i + 1)));
            i = i + 1;
        }
        assert(ids@.take(i as int) == ids@);
    }

    /// Takes note of a plan that was run: `ids` are those of the nodes that
    /// were created, and `ran` says whether it ran to its end. The result says
    /// whether the change was carried out. Where a view of the renderer's tree
    /// is given, the mirror is held against it.
    pub fn finish_sync(
        &mut self,
        dom: &mut Dom,
        plan: &MirrorPlan,
        ids: &Vec<usize>,
        ran: bool,
        tree: Option<&RenderTree>,
    ) -> (updated: bool)
        requires
            old(dom).wf(),
            ids@.len() <= plan@.created.len(),
            old(self)@.next_mirror_op_id < u64::MAX,
            ran && plan@.complete && plan@.forget is Some ==> unmap_ends(
                mirror_of(committed(old(self)@, plan@.created, ids@), old(dom)@),
                plan@.forget->0,
                old(dom)@.len(),
            ),
            ran && plan@.complete && tree is Some ==> forward_ready(
                plan@.op.op_name@,
                settled(old(self)@, old(dom)@, plan@, ids@, ran),
                tree->0@,
                in_increasing_order(
                    settled(old(self)@, old(dom)@, plan@, ids@, ran).to_blitz.dom(),
                ),
            ),
        ensures
            final(dom).wf(),
            updated == (ran && plan@.complete),
            ({
                let s = settled_state(old(self)@, old(dom)@, plan@, ids@, ran);
                let d = settled(old(self)@, old(dom)@, plan@, ids@, ran).dom;
                &&& final(self)@ == finished(
                    s,
                    d,
                    plan@.op,
                    reported_id(plan@.reported, s.to_blitz),
                    updated,
                    tree_view(tree),
                )
                &&& final(dom)@ == finished_dom(s, d, plan@.op, updated, tree_view(tree))
            }),
    {
        let updated = ran && plan.complete;
        self.commit(&plan.created, ids);
        proof {
            lemma_commit_keeps_rest(old(self)@, plan@.created, ids@);
        }
        if updated {
            if let Some(n) = plan.forget {
                remove_subtree_mapping(
                    dom,
                    n,
                    &mut self.legacy_to_blitz,
                    &mut self.blitz_to_legacy,
                );
            }
        }
        assert(mirror_of(self@, dom@) == settled(old(self)@, old(dom)@, plan@, ids@, ran));
        assert(self@ =~= settled_state(old(self)@, old(dom)@, plan@, ids@, ran));
        let reported = match plan.reported {
            Reported::Id(id) => Some(id),
            Reported::Node(n) => self.blitz_node_id_for_dom(n),
            Reported::NodeOr(n, id) => match self.blitz_node_id_for_dom(n) {
                Some(found) => Some(found),
                None => Some(id),
            },
        };
        self.finish_mirror_mutation(dom, &plan.op, reported, updated, tree);
        updated
    }
}

proof fn lemma_commit_keeps_rest(s: BlitzState, created: Seq<NodePtr>, ids: Seq<usize>)
    ensures
        committed(s, created, ids) == (BlitzState {
            to_blitz: committed(s, created, ids).to_blitz,
            to_legacy: committed(s, created, ids).to_legacy,
            ..s
        }),
    decreases ids.len(),
{
    if ids.len() > 0 {
        lemma_commit_keeps_rest(s, created, ids.drop_last());
    }
}

/// Whether the ids of new nodes are new, and so are the nodes.
pub open spec fn all_new(m: Mirror, created: Seq<NodePtr>, ids: Seq<usize>) -> bool {
    &&& ids.len() <= created.len()
    &&& ids.no_duplicates()
    &&& created.no_duplicates()
    &&& forall|i: int| 0 <= i < ids.len() ==> !m.to_legacy.contains_key(#[trigger] ids[i])
    &&& forall|i: int| 0 <= i < created.len() ==> !m.to_blitz.contains_key(#[trigger] created[i])
}

proof fn lemma_pair_added(m: Mirror, n: NodePtr, id: usize)
    requires
        paired(m),
        !m.to_blitz.contains_key(n),
        !m.to_legacy.contains_key(id),
    ensures
        paired(
            Mirror {
                to_blitz: m.to_blitz.insert(n, id),
                to_legacy: m.to_legacy.insert(id, n),
                ..m
            },
        ),
{
    let e = Mirror {
        to_blitz: m.to_blitz.insert(n, id),
        to_legacy: m.to_legacy.insert(id, n),
        ..m
    };
    assert forall|x: usize| #[trigger] e.to_blitz.contains_key(x) implies e.to_legacy.contains_key(
        e.to_blitz[x],
    ) && e.to_legacy[e.to_blitz[x]] == x by {
        if x != n {
            assert(m.to_blitz.contains_key(x));
        }
    }
    assert forall|x: usize| #[trigger] e.to_legacy.contains_key(x) implies e.to_blitz.contains_key(
        e.to_legacy[x],
    ) && e.to_blitz[e.to_legacy[x]] == x by {
        if x != id {
            assert(m.to_legacy.contains_key(x));
        }
    }
}

/// Taking note of new ids keeps both maps paired, and renders every node that
/// got one.
pub proof fn law_commit_keeps_pairs(s: BlitzState, d: DomView, created: Seq<NodePtr>, ids: Seq<usize>)
    requires
        paired(mirror_of(s, d)),
        all_new(mirror_of(s, d), created, ids),
    ensures
        paired(mirror_of(committed(s, created, ids), d)),
        forall|i: int|
            0 <= i < ids.len() ==> committed(s, created, ids).to_blitz.contains_key(
                #[trigger] created[i],
            ) && committed(s, created, ids).to_blitz[created[i]] == ids[i],
        forall|n: usize| #[trigger]
            committed(s, created, ids).to_blitz.contains_key(n) ==> s.to_blitz.contains_key(n) || (
            exists|i: int| 0 <= i < ids.len() && #[trigger] created[i] == n),
        forall|id: usize| #[trigger]
            committed(s, created, ids).to_legacy.contains_key(id) ==> s.to_legacy.contains_key(id)
                || ids.contains(id),
    decreases ids.len(),
{
    if ids.len() > 0 {
        let front = ids.drop_last();
        let k = ids.len() - 1;
        assert forall|i: int| 0 <= i < front.len() implies !s.to_legacy.contains_key(
            #[trigger] front[i],
        ) by {
            assert(front[i] == ids[i]);
        }
        assert(front.no_duplicates());
        law_commit_keeps_pairs(s, d, created, front);
        let before = committed(s, created, front);
        let n = created[k];
        let id = ids.last();
        assert(ids[k] == id);
        assert(!before.to_blitz.contains_key(n)) by {
            if before.to_blitz.contains_key(n) {
                let i = choose|i: int| 0 <= i < front.len() && #[trigger] created[i] == n;
                assert(created[i] != created[k]);
            }
        }
        assert(!before.to_legacy.contains_key(id)) by {
            if before.to_legacy.contains_key(id) {
                let i = choose|i: int| 0 <= i < front.len() && front[i] == id;
                assert(ids[i] == id);
            }
        }
        let e = committed(s, created, ids);
        lemma_pair_added(mirror_of(before, d), n, id);
        assert(e.to_blitz == before.to_blitz.insert(n, id));
        assert(e.to_legacy == before.to_legacy.insert(id, n));
        assert(paired(mirror_of(e, d)));
        assert forall|i: int| 0 <= i < ids.len() implies e.to_blitz.contains_key(
            #[trigger] created[i],
        ) && e.to_blitz[created[i]] == ids[i] by {
            if i < k {
                assert(front[i] == ids[i]);
                assert(created[i] != created[k]);
            }
        }
        assert forall|x: usize| #[trigger] e.to_blitz.contains_key(x) implies s.to_blitz.contains_key(
            x,
        ) || (exists|i: int| 0 <= i < ids.len() && #[trigger] created[i] == x) by {
            if x == n {
                assert(created[k] == x);
            } else if !s.to_blitz.contains_key(x) {
                let i = choose|i: int| 0 <= i < front.len() && #[trigger] created[i] == x;
                assert(created[i] == x);
            }
        }
        assert forall|x: usize| #[trigger] e.to_legacy.contains_key(x) implies s.to_legacy.contains_key(
            x,
        ) || ids.contains(x) by {
            if x == id {
                assert(ids[k] == x);
            } else if !s.to_legacy.contains_key(x) {
                assert(front.contains(x));
                let i = choose|i: int| 0 <= i < front.len() && front[i] == x;
                assert(ids[i] == x);
            }
        }
    }
}

} // verus!
