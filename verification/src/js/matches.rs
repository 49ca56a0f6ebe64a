//! What holds of all that queries find.
//!
//! Matches come in document order and lie below the start of the query, the
//! first match heads them all, and in a tree none comes twice.

use crate::css::ast::{ElementData, ElementDataView};
use crate::dom::node::{children_of, closed_links, ends_within, finite_from, followed,
    lemma_more_fuel, node_ok, same_links, DomView, NodePtr, Reach};
use crate::js::query::{accepted, ancestor_chain, answers, answers_all, candidates, candidates_among,
    considered, data_of, elements_of, finds_all, finds_first, lemma_chain_links,
    lemma_none_accepted, preorder, preorder_all, Candidate};
use vstd::prelude::*;

verus! {

/// Whether `f` answers every candidate in one way only.
pub open spec fn decides<F: Fn(&ElementData, &Vec<ElementData>, &Vec<ElementData>, usize) -> bool>(
    f: F,
    cs: Seq<Candidate>,
) -> bool {
    forall|i: int|
        0 <= i < cs.len() ==> !(answers(f, #[trigger] cs[i], true) && answers(f, cs[i], false))
}

proof fn lemma_accepted_head(cs: Seq<Candidate>, verdicts: Seq<bool>, i: int)
    requires
        cs.len() == verdicts.len(),
        0 <= i < cs.len(),
        verdicts[i],
        forall|j: int| 0 <= j < i ==> !#[trigger] verdicts[j],
    ensures
        accepted(cs, verdicts).len() > 0,
        accepted(cs, verdicts)[0] == cs[i].node,
    decreases cs.len(),
{
    let front = verdicts.drop_last();
    assert forall|j: int| 0 <= j < i implies !#[trigger] front[j] by {
        assert(!verdicts[j]);
    }
    if i == cs.len() - 1 {
        lemma_none_accepted(cs.drop_last(), front);
    } else {
        lemma_accepted_head(cs.drop_last(), front, i);
    }
}

/// For a matcher that decides, the first match is the head of all matches.
pub proof fn law_first_match_heads_all<
    F: Fn(&ElementData, &Vec<ElementData>, &Vec<ElementData>, usize) -> bool,
>(f: F, cs: Seq<Candidate>, all: Seq<NodePtr>, first: Option<NodePtr>)
    requires
        decides(f, cs),
        finds_all(f, cs, all),
        finds_first(f, cs, first),
    ensures
        first == (if all.len() == 0 {
            None
        } else {
            Some(all[0])
        }),
{
    let verdicts = choose|verdicts: Seq<bool>|
        answers_all(f, cs, verdicts) && all == #[trigger] accepted(cs, verdicts);
    match first {
        Some(n) => {
            let i = choose|i: int|
                0 <= i < cs.len() && n == (#[trigger] cs[i]).node && answers(f, cs[i], true)
                    && forall|j: int| 0 <= j < i ==> answers(f, #[trigger] cs[j], false);
            assert(answers(f, cs[i], verdicts[i]));
            assert forall|j: int| 0 <= j < i implies !#[trigger] verdicts[j] by {
                assert(answers(f, cs[j], verdicts[j]));
            }
            lemma_accepted_head(cs, verdicts, i);
        },
        None => {
            assert forall|j: int| 0 <= j < verdicts.len() implies !#[trigger] verdicts[j] by {
                assert(answers(f, cs[j], verdicts[j]));
            }
            lemma_none_accepted(cs, verdicts);
        },
    }
}

/// Whether `at` are the rising places in `from` at which `list` stands.
pub open spec fn stands_at(list: Seq<NodePtr>, from: Seq<NodePtr>, at: Seq<int>) -> bool {
    &&& at.len() == list.len()
    &&& forall|i: int|
        0 <= i < at.len() ==> 0 <= #[trigger] at[i] < from.len() && from[at[i]] == list[i]
    &&& forall|i: int, j: int| 0 <= i < j < at.len() ==> #[trigger] at[i] < #[trigger] at[j]
}

/// Whether the nodes of `list` are among those of `from`, in the same order.
pub open spec fn in_order_of(list: Seq<NodePtr>, from: Seq<NodePtr>) -> bool {
    exists|at: Seq<int>| stands_at(list, from, at)
}

proof fn lemma_order_empty(from: Seq<NodePtr>)
    ensures
        in_order_of(Seq::empty(), from),
{
    assert(stands_at(Seq::empty(), from, Seq::empty()));
}

proof fn lemma_order_same(list: Seq<NodePtr>)
    ensures
        in_order_of(list, list),
{
    assert(stands_at(list, list, Seq::new(list.len(), |i: int| i)));
}

proof fn lemma_order_add(a: Seq<NodePtr>, f: Seq<NodePtr>, b: Seq<NodePtr>, g: Seq<NodePtr>)
    requires
        in_order_of(a, f),
        in_order_of(b, g),
    ensures
        in_order_of(a + b, f + g),
{
    let x = choose|at: Seq<int>| stands_at(a, f, at);
    let y = choose|at: Seq<int>| stands_at(b, g, at);
    let z = x + Seq::new(y.len(), |i: int| f.len() + y[i]);
    assert forall|i: int| 0 <= i < z.len() implies 0 <= #[trigger] z[i] < (f + g).len() && (f
        + g)[z[i]] == (a + b)[i] by {
        if i < x.len() {
            assert(z[i] == x[i]);
        } else {
            assert(z[i] == f.len() + y[i - x.len()]);
        }
    }
    assert forall|i: int, j: int| 0 <= i < j < z.len() implies #[trigger] z[i]
        < #[trigger] z[j] by {
        if j < x.len() {
            assert(x[i] < x[j]);
        } else if i < x.len() {
            assert(x[i] < f.len());
            assert(0 <= y[j - x.len()]);
        } else {
            assert(y[i - x.len()] < y[j - x.len()]);
        }
    }
    assert(stands_at(a + b, f + g, z));
}

proof fn lemma_order_through(a: Seq<NodePtr>, b: Seq<NodePtr>, c: Seq<NodePtr>)
    requires
        in_order_of(a, b),
        in_order_of(b, c),
    ensures
        in_order_of(a, c),
{
    let x = choose|at: Seq<int>| stands_at(a, b, at);
    let y = choose|at: Seq<int>| stands_at(b, c, at);
    let z = Seq::new(x.len(), |i: int| y[x[i]]);
    assert forall|i: int| 0 <= i < z.len() implies 0 <= #[trigger] z[i] < c.len() && c[z[i]]
        == a[i] by {
        assert(0 <= x[i] < b.len());
        assert(0 <= y[x[i]] < c.len());
    }
    assert forall|i: int, j: int| 0 <= i < j < z.len() implies #[trigger] z[i]
        < #[trigger] z[j] by {
        assert(x[i] < x[j]);
        assert(y[x[i]] < y[x[j]]);
    }
    assert(stands_at(a, c, z));
}

/// What is in the order of a list without repetitions has none.
proof fn lemma_order_keeps_distinct(a: Seq<NodePtr>, b: Seq<NodePtr>)
    requires
        in_order_of(a, b),
    ensures
        b.no_duplicates() ==> a.no_duplicates(),
        forall|i: int| 0 <= i < a.len() ==> b.contains(#[trigger] a[i]),
{
    let x = choose|at: Seq<int>| stands_at(a, b, at);
    if b.no_duplicates() {
        assert forall|i: int, j: int| 0 <= i < a.len() && 0 <= j < a.len() && i != j implies a[i]
            != a[j] by {
            assert(0 <= x[i] < b.len() && 0 <= x[j] < b.len());
            if i < j {
                assert(x[i] < x[j]);
            } else {
                assert(x[j] < x[i]);
            }
        }
    }
    assert forall|i: int| 0 <= i < a.len() implies b.contains(#[trigger] a[i]) by {
        assert(0 <= x[i] < b.len());
        assert(b[x[i]] == a[i]);
    }
}

/// The nodes of a list of candidates.
spec fn nodes_of(cs: Seq<Candidate>) -> Seq<NodePtr> {
    cs.map_values(|c: Candidate| c.node)
}

proof fn lemma_accepted_in_order(cs: Seq<Candidate>, verdicts: Seq<bool>)
    requires
        cs.len() == verdicts.len(),
    ensures
        in_order_of(accepted(cs, verdicts), nodes_of(cs)),
    decreases cs.len(),
{
    if cs.len() == 0 {
        lemma_order_empty(nodes_of(cs));
    } else {
        let front = accepted(cs.drop_last(), verdicts.drop_last());
        let last = seq![cs.last().node];
        lemma_accepted_in_order(cs.drop_last(), verdicts.drop_last());
        assert(nodes_of(cs) =~= nodes_of(cs.drop_last()) + last);
        if verdicts.last() {
            lemma_order_same(last);
            lemma_order_add(front, nodes_of(cs.drop_last()), last, last);
            assert(accepted(cs, verdicts) =~= front + last);
        } else {
            lemma_order_empty(last);
            lemma_order_add(front, nodes_of(cs.drop_last()), Seq::empty(), last);
            assert(accepted(cs, verdicts) =~= front + Seq::<NodePtr>::empty());
        }
    }
}

/// The nodes below `n`, in document order.
pub open spec fn nodes_under(d: DomView, n: NodePtr) -> Seq<NodePtr> {
    preorder_all(d, children_of(d[n as int]), d.len())
}

proof fn lemma_candidates_in_order(
    d: DomView,
    n: NodePtr,
    ancestors: Seq<ElementDataView>,
    siblings: Seq<ElementDataView>,
    index: nat,
    skip_self: bool,
    fuel: nat,
)
    ensures
        ({
            let cs = candidates(d, n, ancestors, siblings, index, skip_self, fuel);
            &&& in_order_of(nodes_of(cs), preorder(d, n, fuel))
            &&& skip_self ==> in_order_of(
                nodes_of(cs),
                preorder_all(d, children_of(d[n as int]), fuel),
            )
            &&& forall|i: int| 0 <= i < cs.len() ==> d[(#[trigger] cs[i]).node as int] is Element
        }),
    decreases fuel, 1nat, 0nat,
{
    let kids = children_of(d[n as int]);
    let path = match data_of(d[n as int]) {
        Some(data) => ancestors.push(data),
        None => ancestors,
    };
    let cs = candidates(d, n, ancestors, siblings, index, skip_self, fuel);
    let rest = candidates_among(d, kids, kids, path, fuel);
    lemma_candidates_among_in_order(d, kids, kids, path, fuel);
    let below = preorder_all(d, kids, fuel);
    if skip_self || data_of(d[n as int]) is None {
        assert(cs =~= rest);
        lemma_order_empty(seq![n]);
        lemma_order_add(Seq::empty(), seq![n], nodes_of(rest), below);
        assert(Seq::<NodePtr>::empty() + nodes_of(rest) =~= nodes_of(cs));
    } else {
        lemma_order_same(seq![n]);
        lemma_order_add(seq![n], seq![n], nodes_of(rest), below);
        let own = Candidate {
            node: n,
            data: data_of(d[n as int])->0,
            ancestors,
            siblings,
            index,
        };
        assert(cs == seq![own] + rest);
        assert(seq![n] + nodes_of(rest) =~= nodes_of(cs));
        assert forall|i: int| 0 <= i < cs.len() implies d[(#[trigger] cs[i]).node as int]
            is Element by {
            if i > 0 {
                assert(cs[i] == rest[i - 1]);
            }
        }
    }
}

proof fn lemma_candidates_among_in_order(
    d: DomView,
    kids: Seq<NodePtr>,
    all: Seq<NodePtr>,
    path: Seq<ElementDataView>,
    fuel: nat,
)
    ensures
        ({
            let cs = candidates_among(d, kids, all, path, fuel);
            &&& in_order_of(nodes_of(cs), preorder_all(d, kids, fuel))
            &&& forall|i: int| 0 <= i < cs.len() ==> d[(#[trigger] cs[i]).node as int] is Element
        }),
    decreases fuel, 0nat, kids.len(),
{
    let cs = candidates_among(d, kids, all, path, fuel);
    if kids.len() == 0 || fuel == 0 {
        assert(nodes_of(cs) =~= Seq::<NodePtr>::empty());
        lemma_order_empty(preorder_all(d, kids, fuel));
    } else {
        let front = kids.drop_last();
        let index = if d[kids.last() as int] is Element {
            elements_of(d, front).len()
        } else {
            0
        };
        let a = candidates_among(d, front, all, path, fuel);
        let b = candidates(
            d,
            kids.last(),
            path,
            elements_of(d, all),
            index,
            false,
            (fuel - 1) as nat,
        );
        lemma_candidates_among_in_order(d, front, all, path, fuel);
        lemma_candidates_in_order(
            d,
            kids.last(),
            path,
            elements_of(d, all),
            index,
            false,
            (fuel - 1) as nat,
        );
        lemma_order_add(
            nodes_of(a),
            preorder_all(d, front, fuel),
            nodes_of(b),
            preorder(d, kids.last(), (fuel - 1) as nat),
        );
        assert(nodes_of(a) + nodes_of(b) =~= nodes_of(cs));
        assert forall|i: int| 0 <= i < cs.len() implies d[(#[trigger] cs[i]).node as int]
            is Element by {
            if i < a.len() {
                assert(cs[i] == a[i]);
            } else {
                assert(cs[i] == b[i - a.len()]);
            }
        }
    }
}

/// Whether `x` lies `depth` levels below `n`.
spec fn lies_below(d: DomView, n: NodePtr, x: NodePtr, depth: nat) -> bool
    decreases depth,
{
    if depth == 0 {
        n == x
    } else {
        exists|y: NodePtr|
            #![trigger is_child(d, y, x)]
            is_child(d, y, x) && lies_below(d, n, y, (depth - 1) as nat)
    }
}

/// Whether `x` is a child of `p`.
spec fn is_child(d: DomView, p: NodePtr, x: NodePtr) -> bool {
    p < d.len() && children_of(d[p as int]).contains(x)
}

/// Whether no node stands in two child lists, or twice in one.
pub open spec fn unshared(d: DomView) -> bool {
    forall|a: NodePtr, b: NodePtr, i: int, j: int|
        #![trigger children_of(d[a as int])[i], children_of(d[b as int])[j]]
        a < d.len() && b < d.len() && 0 <= i < children_of(d[a as int]).len() && 0 <= j
            < children_of(d[b as int]).len() && children_of(d[a as int])[i] == children_of(
            d[b as int],
        )[j] ==> a == b && i == j
}

proof fn lemma_one_parent(d: DomView, a: NodePtr, b: NodePtr, x: NodePtr)
    requires
        unshared(d),
        is_child(d, a, x),
        is_child(d, b, x),
    ensures
        a == b,
{
    let p = children_of(d[a as int]);
    let q = children_of(d[b as int]);
    let i = choose|i: int| 0 <= i < p.len() && p[i] == x;
    let j = choose|j: int| 0 <= j < q.len() && q[j] == x;
    assert(p[i] == q[j]);
}

/// What lies below a child lies one level deeper below its parent.
proof fn lemma_below_parent(d: DomView, p: NodePtr, c: NodePtr, x: NodePtr, depth: nat)
    requires
        is_child(d, p, c),
        lies_below(d, c, x, depth),
    ensures
        lies_below(d, p, x, depth + 1),
    decreases depth,
{
    if depth == 0 {
        assert(is_child(d, p, x) && lies_below(d, p, p, 0));
    } else {
        let y = choose|y: NodePtr|
            #![trigger is_child(d, y, x)]
            is_child(d, y, x) && lies_below(d, c, y, (depth - 1) as nat);
        lemma_below_parent(d, p, c, y, (depth - 1) as nat);
        assert(is_child(d, y, x) && lies_below(d, p, y, depth));
    }
}

/// Of two nodes with a common descendant one lies below the other.
proof fn lemma_one_below_other(
    d: DomView,
    a: NodePtr,
    b: NodePtr,
    x: NodePtr,
    near: nat,
    far: nat,
)
    requires
        unshared(d),
        lies_below(d, a, x, near),
        lies_below(d, b, x, far),
        near <= far,
    ensures
        lies_below(d, b, a, (far - near) as nat),
    decreases near,
{
    if near > 0 {
        let y = choose|y: NodePtr|
            #![trigger is_child(d, y, x)]
            is_child(d, y, x) && lies_below(d, a, y, (near - 1) as nat);
        let z = choose|z: NodePtr|
            #![trigger is_child(d, z, x)]
            is_child(d, z, x) && lies_below(d, b, z, (far - 1) as nat);
        lemma_one_parent(d, y, z, x);
        lemma_one_below_other(d, a, b, y, (near - 1) as nat, (far - 1) as nat);
    }
}

/// Walks from what lies below end as soon.
proof fn lemma_below_ends(d: DomView, n: NodePtr, x: NodePtr, depth: nat, fuel: nat)
    requires
        lies_below(d, n, x, depth),
        ends_within(d, n, Reach::Children, fuel),
    ensures
        ends_within(d, x, Reach::Children, fuel),
        depth > 0 ==> fuel > 0 && ends_within(d, x, Reach::Children, (fuel - 1) as nat),
    decreases depth,
{
    if depth > 0 {
        let y = choose|y: NodePtr|
            #![trigger is_child(d, y, x)]
            is_child(d, y, x) && lies_below(d, n, y, (depth - 1) as nat);
        lemma_below_ends(d, n, y, (depth - 1) as nat, fuel);
        let kids = followed(d[y as int], Reach::Children);
        let i = choose|i: int| 0 <= i < kids.len() && kids[i] == x;
        assert(ends_within(d, kids[i], Reach::Children, (fuel - 1) as nat));
        lemma_more_fuel(d, x, Reach::Children, (fuel - 1) as nat, fuel);
    }
}

/// A node from which walks end does not lie below itself.
proof fn lemma_not_below_itself(d: DomView, n: NodePtr, depth: nat, fuel: nat)
    requires
        ends_within(d, n, Reach::Children, fuel),
        depth > 0,
    ensures
        !lies_below(d, n, n, depth),
    decreases fuel,
{
    if lies_below(d, n, n, depth) {
        lemma_below_ends(d, n, n, depth, fuel);
        lemma_not_below_itself(d, n, depth, (fuel - 1) as nat);
    }
}

/// The nodes of a walk lie below its start.
proof fn lemma_preorder_lies_below(d: DomView, n: NodePtr, x: NodePtr, fuel: nat) -> (depth: nat)
    requires
        closed_links(d),
        n < d.len(),
        preorder(d, n, fuel).contains(x),
    ensures
        lies_below(d, n, x, depth),
    decreases fuel, 1nat, 0nat,
{
    let kids = children_of(d[n as int]);
    let walk = preorder(d, n, fuel);
    let at = choose|at: int| 0 <= at < walk.len() && walk[at] == x;
    if at == 0 {
        0
    } else {
        let rest = preorder_all(d, kids, fuel);
        assert(rest[at - 1] == x);
        assert(rest.contains(x));
        assert(kids.take(kids.len() as int) =~= kids);
        lemma_preorder_all_lies_below(d, n, kids.len() as int, x, fuel)
    }
}

/// The nodes of the walks over the first children of `p` lie below `p`.
proof fn lemma_preorder_all_lies_below(d: DomView, p: NodePtr, k: int, x: NodePtr, fuel: nat) -> (depth:
    nat)
    requires
        closed_links(d),
        p < d.len(),
        0 <= k <= children_of(d[p as int]).len(),
        preorder_all(d, children_of(d[p as int]).take(k), fuel).contains(x),
    ensures
        depth > 0,
        lies_below(d, p, x, depth),
        exists|i: int|
            0 <= i < k && lies_below(
                d,
                #[trigger] children_of(d[p as int])[i],
                x,
                (depth - 1) as nat,
            ),
    decreases fuel, 0nat, k,
{
    let all = children_of(d[p as int]);
    let kids = all.take(k);
    assert(node_ok(d[p as int], d.len()));
    let front = preorder_all(d, kids.drop_last(), fuel);
    let last = preorder(d, kids.last(), (fuel - 1) as nat);
    let walk = preorder_all(d, kids, fuel);
    let at = choose|at: int| 0 <= at < walk.len() && walk[at] == x;
    assert(kids.drop_last() =~= all.take(k - 1));
    if at < front.len() {
        assert(front[at] == x);
        assert(front.contains(x));
        lemma_preorder_all_lies_below(d, p, k - 1, x, fuel)
    } else {
        assert(last[at - front.len()] == x);
        assert(last.contains(x));
        assert(all[k - 1] < d.len());
        let depth = lemma_preorder_lies_below(d, all[k - 1], x, (fuel - 1) as nat);
        assert(all.contains(all[k - 1]));
        assert(is_child(d, p, all[k - 1]));
        lemma_below_parent(d, p, all[k - 1], x, depth);
        assert(lies_below(d, all[k - 1], x, ((depth + 1) - 1) as nat));
        depth + 1
    }
}

/// Siblings have no common descendant.
proof fn lemma_siblings_apart(
    d: DomView,
    p: NodePtr,
    i: int,
    j: int,
    x: NodePtr,
    near: nat,
    far: nat,
    fuel: nat,
)
    requires
        unshared(d),
        p < d.len(),
        ends_within(d, p, Reach::Children, fuel),
        0 <= i < children_of(d[p as int]).len(),
        0 <= j < children_of(d[p as int]).len(),
        i != j,
        near <= far,
        lies_below(d, children_of(d[p as int])[i], x, near),
    ensures
        !lies_below(d, children_of(d[p as int])[j], x, far),
{
    let a = children_of(d[p as int])[i];
    let b = children_of(d[p as int])[j];
    assert(is_child(d, p, a) && is_child(d, p, b));
    if lies_below(d, b, x, far) {
        lemma_one_below_other(d, a, b, x, near, far);
        let gap = (far - near) as nat;
        if gap > 0 {
            let y = choose|y: NodePtr|
                #![trigger is_child(d, y, a)]
                is_child(d, y, a) && lies_below(d, b, y, (gap - 1) as nat);
            lemma_one_parent(d, y, p, a);
            lemma_below_parent(d, p, b, p, (gap - 1) as nat);
            lemma_not_below_itself(d, p, gap, fuel);
        }
    }
}

proof fn lemma_preorder_distinct(d: DomView, n: NodePtr, fuel: nat)
    requires
        closed_links(d),
        unshared(d),
        ends_within(d, n, Reach::Children, fuel),
    ensures
        preorder(d, n, fuel).no_duplicates(),
        preorder_all(d, children_of(d[n as int]), fuel).no_duplicates(),
    decreases fuel, 1nat, 0nat,
{
    let kids = children_of(d[n as int]);
    let rest = preorder_all(d, kids, fuel);
    assert(kids.take(kids.len() as int) =~= kids);
    lemma_preorder_all_distinct(d, n, kids.len() as int, fuel);
    assert(!rest.contains(n)) by {
        if rest.contains(n) {
            let depth = lemma_preorder_all_lies_below(d, n, kids.len() as int, n, fuel);
            lemma_not_below_itself(d, n, depth, fuel);
        }
    }
    let walk = preorder(d, n, fuel);
    assert forall|i: int, j: int| 0 <= i < walk.len() && 0 <= j < walk.len() && i != j implies walk[i]
        != walk[j] by {
        if i > 0 {
            assert(walk[i] == rest[i - 1]);
        }
        if j > 0 {
            assert(walk[j] == rest[j - 1]);
        }
    }
}

proof fn lemma_preorder_all_distinct(d: DomView, p: NodePtr, k: int, fuel: nat)
    requires
        closed_links(d),
        unshared(d),
        ends_within(d, p, Reach::Children, fuel),
        0 <= k <= children_of(d[p as int]).len(),
    ensures
        preorder_all(d, children_of(d[p as int]).take(k), fuel).no_duplicates(),
    decreases fuel, 0nat, k,
{
    if k > 0 {
        let all = children_of(d[p as int]);
        let kids = all.take(k);
        let front = preorder_all(d, kids.drop_last(), fuel);
        let last = preorder(d, kids.last(), (fuel - 1) as nat);
        let walk = preorder_all(d, kids, fuel);
        assert(kids.drop_last() =~= all.take(k - 1));
        assert(followed(d[p as int], Reach::Children)[k - 1] == all[k - 1]);
        lemma_preorder_all_distinct(d, p, k - 1, fuel);
        lemma_preorder_distinct(d, all[k - 1], (fuel - 1) as nat);
        assert forall|i: int, j: int| 0 <= i < front.len() && 0 <= j < last.len() implies front[i]
            != last[j] by {
            if front[i] == last[j] {
                let x = front[i];
                assert(front.contains(x) && last.contains(x));
                let a = lemma_preorder_all_lies_below(d, p, k - 1, x, fuel);
                let h = choose|h: int|
                    0 <= h < k - 1 && lies_below(d, #[trigger] all[h], x, (a - 1) as nat);
                let b = lemma_preorder_lies_below(d, all[k - 1], x, (fuel - 1) as nat);
                if a - 1 <= b {
                    lemma_siblings_apart(d, p, h, k - 1, x, (a - 1) as nat, b, fuel);
                } else {
                    lemma_siblings_apart(d, p, k - 1, h, x, b, (a - 1) as nat, fuel);
                }
            }
        }
        assert(walk =~= front + last);
    }
}

/// Walks do not tell arenas with the same child lists apart.
proof fn lemma_same_preorder(d: DomView, e: DomView, n: NodePtr, fuel: nat)
    requires
        closed_links(d),
        same_links(d, e, Reach::Children),
        n < d.len(),
    ensures
        preorder(d, n, fuel) == preorder(e, n, fuel),
    decreases fuel, 1nat, 0nat,
{
    assert(followed(d[n as int], Reach::Children) == followed(e[n as int], Reach::Children));
    assert(node_ok(d[n as int], d.len()));
    lemma_same_preorder_all(d, e, children_of(d[n as int]), fuel);
}

proof fn lemma_same_preorder_all(d: DomView, e: DomView, kids: Seq<NodePtr>, fuel: nat)
    requires
        closed_links(d),
        same_links(d, e, Reach::Children),
        forall|i: int| 0 <= i < kids.len() ==> #[trigger] kids[i] < d.len(),
    ensures
        preorder_all(d, kids, fuel) == preorder_all(e, kids, fuel),
    decreases fuel, 0nat, kids.len(),
{
    if kids.len() > 0 && fuel > 0 {
        assert forall|i: int| 0 <= i < kids.drop_last().len() implies #[trigger] kids.drop_last()[i]
            < d.len() by {
            assert(kids[i] < d.len());
        }
        assert(kids[kids.len() - 1] < d.len());
        lemma_same_preorder_all(d, e, kids.drop_last(), fuel);
        lemma_same_preorder(d, e, kids.last(), (fuel - 1) as nat);
    }
}

/// All matches are elements below the start of the query, never the start
/// itself, in document order; where no node has two parents, none comes twice.
pub proof fn law_matches_are_in_document_order<
    F: Fn(&ElementData, &Vec<ElementData>, &Vec<ElementData>, usize) -> bool,
>(f: F, d: DomView, root: NodePtr, start: NodePtr, all: Seq<NodePtr>)
    requires
        closed_links(d),
        root < d.len(),
        finite_from(d, start, Reach::Children),
        finds_all(f, considered(d, root, start), all),
    ensures
        in_order_of(all, nodes_under(d, start)),
        forall|i: int|
            0 <= i < all.len() ==> (#[trigger] all[i]) < d.len() && d[all[i] as int] is Element,
        !all.contains(start),
        unshared(d) ==> all.no_duplicates(),
{
    let (e, above) = ancestor_chain(d, root, start, d.len());
    let cs = considered(d, root, start);
    let kids = children_of(d[start as int]);
    let under = nodes_under(d, start);
    let verdicts = choose|verdicts: Seq<bool>|
        answers_all(f, cs, verdicts) && all == #[trigger] accepted(cs, verdicts);
    lemma_chain_links(d, root, start, Reach::Children, d.len());
    lemma_candidates_in_order(e, start, above, Seq::empty(), 0, true, e.len());
    assert(followed(d[start as int], Reach::Children) == followed(
        e[start as int],
        Reach::Children,
    ));
    assert(node_ok(d[start as int], d.len()));
    lemma_same_preorder_all(d, e, kids, d.len());
    lemma_accepted_in_order(cs, verdicts);
    lemma_order_through(all, nodes_of(cs), under);
    lemma_order_keeps_distinct(all, under);
    lemma_order_keeps_distinct(all, nodes_of(cs));
    assert(kids.take(kids.len() as int) =~= kids);
    assert forall|i: int| 0 <= i < all.len() implies (#[trigger] all[i]) < d.len()
        && d[all[i] as int] is Element && all[i] != start by {
        let nodes = nodes_of(cs);
        assert(nodes.contains(all[i]));
        let j = choose|j: int| 0 <= j < nodes.len() && nodes[j] == all[i];
        assert(cs[j].node == all[i]);
        assert(under.contains(all[i]));
        let depth = lemma_preorder_all_lies_below(d, start, kids.len() as int, all[i], d.len());
        lemma_below_ends(d, start, all[i], depth, d.len());
        assert(e[all[i] as int] is Element);
        if all[i] == start {
            lemma_not_below_itself(d, start, depth, d.len());
        }
    }
    if unshared(d) {
        lemma_preorder_distinct(d, start, d.len());
    }
}

} // verus!
