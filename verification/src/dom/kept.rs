//! Which nodes are still kept.
//!
//! A node is kept by who names it from outside, and by the nodes that hold it: as
//! a child, as template contents, as a shadow root or as an assigned node. A
//! parent link keeps nothing, so a node can outlive its parent.

use crate::dom::node::{assigned_of, clear_parent, closed_links, copy_list, followed, links_ok,
    node_ok, parent_of, parent_ptr, with_parent, Dom, DomView, Node, NodePtr, Reach};
use crate::dom::walks::followed_nodes;
use vstd::prelude::*;

verus! {

/// Whether the node `a` holds `b`, so that `b` is kept as long as `a` is.
pub open spec fn keeps(d: DomView, a: NodePtr, b: NodePtr) -> bool {
    a < d.len() && (followed(d[a as int], Reach::All).contains(b) || assigned_of(
        d[a as int],
    ).contains(b))
}

/// Whether `x` is one of the roots or kept by them through at most `steps` steps.
pub open spec fn kept_within(d: DomView, roots: Seq<NodePtr>, x: NodePtr, steps: nat) -> bool
    decreases steps,
{
    roots.contains(x) || steps > 0 && exists|a: NodePtr| #[trigger]
        keeps(d, a, x) && kept_within(d, roots, a, (steps - 1) as nat)
}

/// Whether `x` is one of the roots or kept by them, directly or through others.
pub open spec fn kept(d: DomView, roots: Seq<NodePtr>, x: NodePtr) -> bool {
    exists|steps: nat| kept_within(d, roots, x, steps)
}

/// The arena in which a node has a parent only where that parent is kept.
pub open spec fn swept(d: DomView, roots: Seq<NodePtr>) -> DomView {
    Seq::new(
        d.len(),
        |i: int|
            if parent_of(d[i]) is Some && !kept(d, roots, parent_of(d[i])->0) {
                with_parent(d[i], None)
            } else {
                d[i]
            },
    )
}

/// How many places of a list are not marked.
spec fn unmarked(s: Seq<bool>) -> nat
    decreases s.len(),
{
    if s.len() == 0 {
        0
    } else {
        unmarked(s.drop_last()) + if s.last() {
            0nat
        } else {
            1nat
        }
    }
}

proof fn lemma_marking(s: Seq<bool>, i: int)
    requires
        0 <= i < s.len(),
        !s[i],
    ensures
        unmarked(s.update(i, true)) + 1 == unmarked(s),
    decreases s.len(),
{
    let t = s.update(i, true);
    if i == s.len() - 1 {
        assert(t.drop_last() =~= s.drop_last());
    } else {
        assert(t.drop_last() =~= s.drop_last().update(i, true));
        lemma_marking(s.drop_last(), i);
    }
}

/// Marks the nodes of a list, and puts those that are new on the stack.
fn mark(marked: &mut Vec<bool>, stack: &mut Vec<NodePtr>, list: &Vec<NodePtr>)
    requires
        links_ok(list@, old(marked)@.len()),
    ensures
        final(marked)@.len() == old(marked)@.len(),
        forall|k: NodePtr|
            k < final(marked)@.len() ==> #[trigger] final(marked)@[k as int] == (
            old(marked)@[k as int] || list@.contains(k)),
        forall|k: NodePtr|
            old(stack)@.contains(k) || (list@.contains(k) && !old(marked)@[k as int])
                ==> #[trigger] final(stack)@.contains(k),
        forall|k: NodePtr| #[trigger]
            final(stack)@.contains(k) ==> old(stack)@.contains(k) || list@.contains(k),
        unmarked(final(marked)@) + final(stack)@.len() == unmarked(old(marked)@) + old(
            stack,
        )@.len(),
{
    let ghost m = marked@;
    let ghost s = stack@;
    let mut i: usize = 0;
    while i < list.len()
        invariant
            i <= list.len(),
            links_ok(list@, m.len()),
            marked@.len() == m.len(),
            forall|k: NodePtr|
                k < m.len() ==> #[trigger] marked@[k as int] == (m[k as int] || list@.take(
                    i as int,
                ).contains(k)),
            forall|k: NodePtr|
                s.contains(k) || (list@.take(i as int).contains(k) && !m[k as int])
                    ==> #[trigger] stack@.contains(k),
            forall|k: NodePtr| #[trigger]
                stack@.contains(k) ==> s.contains(k) || list@.take(i as int).contains(k),
            unmarked(marked@) + stack@.len() == unmarked(m) + s.len(),
        decreases list.len() - i,
    {
        let n = list[i];
        let ghost before = stack@;
        let ghost taken = list@.take(i as int);
        let ghost next = list@.take(i + 1);
        assert(next =~= taken.push(n));
        assert forall|k: NodePtr| next.contains(k) <==> taken.contains(k) || k == n by {
            if taken.contains(k) {
                let j = choose|j: int| 0 <= j < taken.len() && taken[j] == k;
                assert(next[j] == k);
            }
            if next.contains(k) {
                let j = choose|j: int| 0 <= j < next.len() && next[j] == k;
                if j < i {
                    assert(taken[j] == k);
                }
            }
            assert(next[i as int] == n);
        }
        if !marked[n] {
            proof {
                lemma_marking(marked@, n as int);
            }
            marked.set(n, true);
            stack.push(n);
            assert forall|k: NodePtr| #[trigger] stack@.contains(k) <==> before.contains(k) || k
                == n by {
                if before.contains(k) {
                    let j = choose|j: int| 0 <= j < before.len() && before[j] == k;
                    assert(stack@[j] == k);
                }
                if stack@.contains(k) {
                    let j = choose|j: int| 0 <= j < stack@.len() && stack@[j] == k;
                    if j < before.len() {
                        assert(before[j] == k);
                    }
                }
                assert(stack@[before.len() as int] == n);
            }
        }
        i = i + 1;
    }
    assert(list@.take(list@.len() as int) =~= list@);
}

/// What is kept is marked, where the roots are and all that a marked node keeps.
proof fn lemma_kept_is_marked(
    d: DomView,
    roots: Seq<NodePtr>,
    marked: Seq<bool>,
    x: NodePtr,
    steps: nat,
)
    requires
        marked.len() == d.len(),
        links_ok(roots, d.len()),
        closed_links(d),
        forall|k: NodePtr| #[trigger] roots.contains(k) ==> marked[k as int],
        forall|a: NodePtr, b: NodePtr|
            marked[a as int] && #[trigger] keeps(d, a, b) ==> marked[b as int],
        kept_within(d, roots, x, steps),
    ensures
        marked[x as int],
    decreases steps,
{
    if !roots.contains(x) {
        let a = choose|a: NodePtr| #[trigger]
            keeps(d, a, x) && kept_within(d, roots, a, (steps - 1) as nat);
        lemma_kept_is_marked(d, roots, marked, a, (steps - 1) as nat);
    }
}

proof fn lemma_kept_keeps(d: DomView, roots: Seq<NodePtr>, a: NodePtr, b: NodePtr)
    requires
        kept(d, roots, a),
        keeps(d, a, b),
    ensures
        kept(d, roots, b),
{
    let steps = choose|steps: nat| kept_within(d, roots, a, steps);
    assert(kept_within(d, roots, b, steps + 1));
}

/// For every node whether it is kept.
pub fn kept_nodes(dom: &Dom, roots: &Vec<NodePtr>) -> (res: Vec<bool>)
    requires
        dom.wf(),
        links_ok(roots@, dom@.len()),
    ensures
        res@.len() == dom@.len(),
        forall|x: NodePtr|
            x < dom@.len() ==> #[trigger] res@[x as int] == kept(dom@, roots@, x),
{
    let ghost d = dom@;
    let mut marked: Vec<bool> = Vec::new();
    while marked.len() < dom.len()
        invariant
            d == dom@,
            marked@.len() <= d.len(),
            forall|k: int| 0 <= k < marked@.len() ==> !#[trigger] marked@[k],
        decreases d.len() - marked@.len(),
    {
        marked.push(false);
    }
    let mut stack: Vec<NodePtr> = Vec::new();
    mark(&mut marked, &mut stack, roots);
    proof {
        assert forall|k: NodePtr| #[trigger] roots@.contains(k) implies marked@[k as int] by {
            let i = choose|i: int| 0 <= i < roots@.len() && roots@[i] == k;
            assert(roots@[i] < d.len());
        }
        assert forall|k: NodePtr| k < d.len() && #[trigger] marked@[k as int] implies kept(
            d,
            roots@,
            k,
        ) && stack@.contains(k) by {
            assert(roots@.contains(k));
            assert(kept_within(d, roots@, k, 0));
        }
    }
    while stack.len() > 0
        invariant
            dom.wf(),
            d == dom@,
            links_ok(roots@, d.len()),
            marked@.len() == d.len(),
            forall|k: NodePtr| #[trigger] roots@.contains(k) ==> marked@[k as int],
            forall|k: NodePtr| #[trigger]
                stack@.contains(k) ==> k < d.len() && marked@[k as int],
            forall|k: NodePtr|
                k < d.len() && #[trigger] marked@[k as int] ==> kept(d, roots@, k),
            forall|a: NodePtr, b: NodePtr|
                marked@[a as int] && !stack@.contains(a) && #[trigger] keeps(d, a, b)
                    ==> marked@[b as int],
        decreases unmarked(marked@) + stack@.len(),
    {
        let ghost full = stack@;
        let ghost m = marked@;
        let node = stack.pop().unwrap();
        assert(full[full.len() - 1] == node);
        assert(full.contains(node));
        let ghost rest = stack@;
        let links = followed_nodes(dom, node, Reach::All);
        let given = match dom.node(node) {
            Node::Element(el) => copy_list(&el.assigned_nodes),
            _ => Vec::new(),
        };
        proof {
            assert(node_ok(d[node as int], d.len()));
        }
        mark(&mut marked, &mut stack, &links);
        let ghost half = stack@;
        mark(&mut marked, &mut stack, &given);
        proof {
            assert forall|k: NodePtr| #[trigger] rest.contains(k) implies full.contains(k) by {
                let j = choose|j: int| 0 <= j < rest.len() && rest[j] == k;
                assert(full[j] == k);
            }
            assert forall|k: NodePtr| full.contains(k) && k != node implies #[trigger] rest.contains(
                k,
            ) by {
                let j = choose|j: int| 0 <= j < full.len() && full[j] == k;
                assert(rest[j] == k);
            }
            assert forall|k: NodePtr| k < d.len() && #[trigger] marked@[k as int] implies kept(
                d,
                roots@,
                k,
            ) by {
                if !m[k as int] {
                    assert(keeps(d, node, k));
                    lemma_kept_keeps(d, roots@, node, k);
                }
            }
            assert forall|k: NodePtr| #[trigger] stack@.contains(k) implies k < d.len()
                && marked@[k as int] by {
                if !rest.contains(k) {
                    if links@.contains(k) {
                        let j = choose|j: int| 0 <= j < links@.len() && links@[j] == k;
                        assert(links@[j] < d.len());
                    } else {
                        assert(given@.contains(k));
                        let j = choose|j: int| 0 <= j < given@.len() && given@[j] == k;
                        assert(given@[j] < d.len());
                    }
                }
            }
            assert forall|a: NodePtr, b: NodePtr|
                marked@[a as int] && !stack@.contains(a) && #[trigger] keeps(
                    d,
                    a,
                    b,
                ) implies marked@[b as int] by {
                lemma_keeps_in_range(d, a, b);
                if a != node {
                    assert(!half.contains(a));
                    assert(!rest.contains(a));
                    assert(m[a as int]);
                    assert(!full.contains(a));
                    assert(m[b as int]);
                }
            }
        }
    }
    proof {
        assert forall|x: NodePtr| x < d.len() && kept(d, roots@, x) implies #[trigger] marked@[x as int] by {
            let steps = choose|steps: nat| kept_within(d, roots@, x, steps);
            lemma_kept_is_marked(d, roots@, marked@, x, steps);
        }
    }
    marked
}

proof fn lemma_keeps_in_range(d: DomView, a: NodePtr, b: NodePtr)
    requires
        closed_links(d),
        keeps(d, a, b),
    ensures
        b < d.len(),
{
    assert(node_ok(d[a as int], d.len()));
    let links = followed(d[a as int], Reach::All);
    let given = assigned_of(d[a as int]);
    if links.contains(b) {
        let j = choose|j: int| 0 <= j < links.len() && links[j] == b;
        assert(links[j] < d.len());
    } else {
        let j = choose|j: int| 0 <= j < given.len() && given[j] == b;
        assert(given[j] < d.len());
    }
}

/// Gives up every node that `roots` do not keep: a node whose parent is among
/// them has no parent any more.
pub fn sweep(dom: &mut Dom, roots: &Vec<NodePtr>)
    requires
        old(dom).wf(),
        links_ok(roots@, old(dom)@.len()),
    ensures
        final(dom).wf(),
        final(dom)@ == swept(old(dom)@, roots@),
{
    let ghost d = dom@;
    let alive = kept_nodes(dom, roots);
    let mut i: usize = 0;
    while i < dom.len()
        invariant
            dom.wf(),
            closed_links(d),
            i <= d.len(),
            dom@.len() == d.len(),
            alive@.len() == d.len(),
            forall|x: NodePtr|
                x < d.len() ==> #[trigger] alive@[x as int] == kept(d, roots@, x),
            forall|j: int| 0 <= j < i ==> #[trigger] dom@[j] == swept(d, roots@)[j],
            forall|j: int| i <= j < d.len() ==> #[trigger] dom@[j] == d[j],
        decreases d.len() - i,
    {
        assert(node_ok(d[i as int], d.len()));
        if let Some(parent) = parent_ptr(dom, i) {
            if !alive[parent] {
                clear_parent(dom, i);
            }
        }
        i = i + 1;
    }
    assert(dom@ =~= swept(d, roots@));
}

/// After a sweep every parent is kept. A parent that was kept before still is,
/// and nothing else of a node has changed.
pub proof fn law_parents_are_kept(d: DomView, roots: Seq<NodePtr>, n: NodePtr)
    requires
        n < d.len(),
    ensures
        ({
            let m = swept(d, roots)[n as int];
            let parent = parent_of(d[n as int]);
            &&& parent_of(m) == (if parent is Some && kept(d, roots, parent->0) {
                parent
            } else {
                None
            })
            &&& parent_of(m) matches Some(p) ==> kept(swept(d, roots), roots, p)
            &&& with_parent(m, parent) == d[n as int]
        }),
{
    if let Some(p) = parent_of(swept(d, roots)[n as int]) {
        let steps = choose|steps: nat| kept_within(d, roots, p, steps);
        lemma_sweeping_keeps(d, roots, p, steps);
    }
}

proof fn lemma_sweeping_keeps(d: DomView, roots: Seq<NodePtr>, x: NodePtr, steps: nat)
    requires
        kept_within(d, roots, x, steps),
    ensures
        kept_within(swept(d, roots), roots, x, steps),
    decreases steps,
{
    if !roots.contains(x) {
        let a = choose|a: NodePtr| #[trigger]
            keeps(d, a, x) && kept_within(d, roots, a, (steps - 1) as nat);
        lemma_sweeping_keeps(d, roots, a, (steps - 1) as nat);
        assert(keeps(swept(d, roots), a, x));
    }
}

} // verus!
