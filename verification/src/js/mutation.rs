//! Mutation primitives of the document tree.
//!
//! Insertion is a move: a node that already has a parent leaves it first, and a
//! document fragment hands over its children in order.

use crate::dom::node::{adopted, child_nodes, children_of, clear_parent, closed_links, copy_list,
    ends_within, finite_from, followed, is_container, is_document_fragment, is_element_node,
    is_fragment, links_ok, node_ok, parent_of, parent_ptr, rechilded, reparented, set_children,
    set_content, set_parent, with_children, with_content, Dom, DomView, Node, NodePtr, NodeView,
    Reach};
use crate::dom::shadow::{lemma_without, list_without, without};
use vstd::prelude::*;

verus! {

/// Where an insertion puts a node in a child list.
#[derive(Debug, Clone, Copy)]
pub enum Place {
    /// Behind the last child.
    End,
    /// Before the first child.
    Start,
    /// Before the given child; behind the last where it is no child.
    Before(NodePtr),
}

/// The position of the first `x` in `s`; the length of `s` where there is none.
pub open spec fn index_in(s: Seq<NodePtr>, x: NodePtr) -> nat
    decreases s.len(),
{
    if s.len() == 0 || s[0] == x {
        0
    } else {
        1 + index_in(s.drop_first(), x)
    }
}

/// `kids` with `c` put in its place.
pub open spec fn put(kids: Seq<NodePtr>, c: NodePtr, place: Place) -> Seq<NodePtr> {
    match place {
        Place::End => kids.push(c),
        Place::Start => kids.insert(0, c),
        Place::Before(r) => kids.insert(index_in(kids, r) as int, c),
    }
}

/// The arena after `c` has left the child list of its parent. The parent
/// back-pointer of `c` stays.
pub open spec fn detached(d: DomView, c: NodePtr) -> DomView {
    match parent_of(d[c as int]) {
        Some(p) => rechilded(d, p, without(children_of(d[p as int]), c)),
        None => d,
    }
}

/// The arena after the single node `c` has moved into `p`.
pub open spec fn placed_one(d: DomView, p: NodePtr, c: NodePtr, place: Place) -> DomView {
    let e = detached(d, c);
    if is_container(e[p as int]) {
        reparented(rechilded(e, p, put(children_of(e[p as int]), c, place)), c, Some(p))
    } else {
        e
    }
}

/// The order in which the children of a fragment are inserted.
pub open spec fn insertion_order(list: Seq<NodePtr>, place: Place) -> Seq<NodePtr> {
    if place is Start {
        list.reverse()
    } else {
        list
    }
}

/// The arena after `c`, or the children of the fragment `c`, moved into `p`.
pub open spec fn placed(d: DomView, p: NodePtr, c: NodePtr, place: Place, fuel: nat) -> DomView
    decreases fuel, 0nat,
{
    if !is_fragment(d[c as int]) {
        placed_one(d, p, c, place)
    } else if fuel == 0 {
        d
    } else {
        placed_all(
            rechilded(d, c, Seq::empty()),
            p,
            insertion_order(children_of(d[c as int]), place),
            place,
            (fuel - 1) as nat,
        )
    }
}

/// The arena after the nodes of a list moved into `p` one by one.
pub open spec fn placed_all(
    d: DomView,
    p: NodePtr,
    list: Seq<NodePtr>,
    place: Place,
    fuel: nat,
) -> DomView
    decreases fuel, list.len() + 1,
{
    if list.len() == 0 {
        d
    } else {
        let e = placed_all(d, p, list.drop_last(), place, fuel);
        let f = if place is Start {
            detached(e, list.last())
        } else {
            e
        };
        placed(f, p, list.last(), place, fuel)
    }
}

/// Whether `x` is a fragment with a fragment among its children.
pub open spec fn nests(d: DomView, x: int) -> bool {
    0 <= x < d.len() && is_fragment(d[x]) && exists|j: int|
        0 <= j < children_of(d[x]).len() && is_fragment(d[#[trigger] children_of(d[x])[j] as int])
}

/// The fragments with a fragment among their children.
pub open spec fn nesting(d: DomView) -> Set<int> {
    Set::new(|x: int| nests(d, x))
}

/// Whether two arenas have the same fragments and `e` nests no more of them.
spec fn no_more_nesting(d: DomView, e: DomView) -> bool {
    &&& d.len() == e.len()
    &&& forall|i: int| 0 <= i < d.len() ==> is_fragment(#[trigger] e[i]) == is_fragment(d[i])
    &&& forall|x: int| nests(e, x) ==> #[trigger] nests(d, x)
}

proof fn lemma_nesting_finite(d: DomView)
    ensures
        nesting(d).finite(),
        nesting(d).len() <= d.len(),
{
    let all = vstd::set_lib::set_int_range(0, d.len() as int);
    vstd::set_lib::lemma_int_range(0, d.len() as int);
    assert(nesting(d).subset_of(all));
    vstd::set_lib::lemma_len_subset(nesting(d), all);
}

proof fn lemma_nesting_monotone(d: DomView, e: DomView)
    requires
        no_more_nesting(d, e),
    ensures
        nesting(e).len() <= nesting(d).len(),
{
    lemma_nesting_finite(d);
    assert(nesting(e).subset_of(nesting(d)));
    vstd::set_lib::lemma_len_subset(nesting(e), nesting(d));
}

/// A child list that holds no new fragment adds no nesting.
proof fn lemma_rechilded_nesting(d: DomView, n: NodePtr, kids: Seq<NodePtr>)
    requires
        closed_links(d),
        n < d.len(),
        links_ok(kids, d.len()),
        forall|i: int|
            0 <= i < kids.len() && is_fragment(d[#[trigger] kids[i] as int]) ==> children_of(
                d[n as int],
            ).contains(kids[i]),
    ensures
        no_more_nesting(d, rechilded(d, n, kids)),
{
    let e = rechilded(d, n, kids);
    assert forall|i: int| 0 <= i < d.len() implies is_fragment(#[trigger] e[i]) == is_fragment(
        d[i],
    ) by {}
    assert forall|x: int| nests(e, x) implies #[trigger] nests(d, x) by {
        let j = choose|j: int|
            0 <= j < children_of(e[x]).len() && is_fragment(
                e[#[trigger] children_of(e[x])[j] as int],
            );
        let k = children_of(e[x])[j];
        if x == n {
            assert(k == kids[j]);
            assert(is_fragment(d[kids[j] as int]));
            let i = choose|i: int|
                0 <= i < children_of(d[n as int]).len() && children_of(d[n as int])[i] == k;
            assert(is_fragment(d[children_of(d[x])[i] as int]));
        } else {
            assert(children_of(d[x])[j] == k);
            assert(node_ok(d[x], d.len()));
            assert(k < d.len());
            assert(is_fragment(e[k as int]) == is_fragment(d[k as int]));
        }
    }
}

proof fn lemma_reparented_nesting(d: DomView, c: NodePtr, p: Option<NodePtr>)
    requires
        closed_links(d),
        c < d.len(),
    ensures
        no_more_nesting(d, reparented(d, c, p)),
{
    let e = reparented(d, c, p);
    assert forall|i: int| 0 <= i < d.len() implies is_fragment(#[trigger] e[i]) == is_fragment(
        d[i],
    ) by {}
    assert forall|x: int| nests(e, x) implies #[trigger] nests(d, x) by {
        let j = choose|j: int|
            0 <= j < children_of(e[x]).len() && is_fragment(
                e[#[trigger] children_of(e[x])[j] as int],
            );
        assert(node_ok(d[x], d.len()));
        assert(children_of(d[x])[j] == children_of(e[x])[j]);
        assert(children_of(d[x])[j] < d.len());
    }
}

proof fn lemma_no_more_nesting_trans(d: DomView, e: DomView, f: DomView)
    requires
        no_more_nesting(d, e),
        no_more_nesting(e, f),
    ensures
        no_more_nesting(d, f),
{
    assert forall|i: int| 0 <= i < d.len() implies is_fragment(#[trigger] f[i]) == is_fragment(
        d[i],
    ) by {
        assert(is_fragment(e[i]) == is_fragment(d[i]));
    }
    assert forall|x: int| nests(f, x) implies #[trigger] nests(d, x) by {
        assert(nests(e, x));
    }
}

/// The position of the first `x`.
pub fn position_of(list: &Vec<NodePtr>, x: NodePtr) -> (at: usize)
    ensures
        at == index_in(list@, x),
        at <= list.len(),
        at < list.len() <==> list@.contains(x),
        at < list.len() ==> list@[at as int] == x,
{
    let mut i: usize = 0;
    assert(list@.skip(0) == list@);
    while i < list.len() && list[i] != x
        invariant
            i <= list.len(),
            index_in(list@, x) == i + index_in(list@.skip(i as int), x),
            forall|j: int| 0 <= j < i ==> list@[j] != x,
        ensures
            i <= list.len(),
            i == index_in(list@, x),
            forall|j: int| 0 <= j < i ==> list@[j] != x,
            i < list.len() ==> list@[i as int] == x,
        decreases list.len() - i,
    {
        assert(list@.skip(i as int).drop_first() == list@.skip(i + 1));
        i = i + 1;
    }
    i
}

/// [`index_in`] finds what is there.
pub proof fn lemma_index_in(s: Seq<NodePtr>, x: NodePtr)
    ensures
        index_in(s, x) <= s.len(),
        index_in(s, x) < s.len() <==> s.contains(x),
        index_in(s, x) < s.len() ==> s[index_in(s, x) as int] == x,
    decreases s.len(),
{
    if s.len() > 0 && s[0] != x {
        lemma_index_in(s.drop_first(), x);
        if s.contains(x) {
            let i = choose|i: int| 0 <= i < s.len() && s[i] == x;
            assert(s.drop_first()[i - 1] == x);
        }
    } else if s.len() > 0 {
        assert(s[0] == x);
    }
}

/// Remove `child` from the child list of its parent, if it has one.
pub fn detach_from_parent(dom: &mut Dom, child: NodePtr)
    requires
        old(dom).wf(),
        child < old(dom)@.len(),
    ensures
        final(dom).wf(),
        final(dom)@ == detached(old(dom)@, child),
{
    if let Some(p) = parent_ptr(dom, child) {
        proof {
            assert(node_ok(dom@[child as int], dom@.len()));
            assert(node_ok(dom@[p as int], dom@.len()));
            lemma_without(children_of(dom@[p as int]), child);
            assert(links_ok(children_of(dom@[p as int]), dom@.len()));
        }
        let kept = list_without(&child_nodes(dom, p), child);
        set_children(dom, p, kept);
    }
}

proof fn lemma_detached(d: DomView, c: NodePtr)
    requires
        closed_links(d),
        c < d.len(),
    ensures
        closed_links(detached(d, c)),
        no_more_nesting(d, detached(d, c)),
{
    if let Some(p) = parent_of(d[c as int]) {
        assert(node_ok(d[c as int], d.len()));
        assert(node_ok(d[p as int], d.len()));
        let kids = children_of(d[p as int]);
        lemma_without(kids, c);
        assert(links_ok(kids, d.len()));
        let kept = without(kids, c);
        assert forall|i: int|
            0 <= i < kept.len() && is_fragment(d[#[trigger] kept[i] as int]) implies children_of(
            d[p as int],
        ).contains(kept[i]) by {
            assert(kept.contains(kept[i]));
        }
        lemma_rechilded_nesting(d, p, kept);
        let e = detached(d, c);
        assert forall|i: int| 0 <= i < e.len() implies node_ok(#[trigger] e[i], e.len()) by {
            assert(node_ok(d[i], d.len()));
        }
    }
}

/// Puts `child` into a child list.
fn put_in_list(kids: &mut Vec<NodePtr>, child: NodePtr, place: Place)
    ensures
        final(kids)@ == put(old(kids)@, child, place),
{
    match place {
        Place::End => {
            kids.push(child);
        },
        Place::Start => {
            kids.insert(0, child);
        },
        Place::Before(r) => {
            let at: usize = position_of(kids, r);
            kids.insert(at, child);
        },
    }
}

/// Moves the single node `child` into `parent`.
fn place_one(dom: &mut Dom, parent: NodePtr, child: NodePtr, place: Place)
    requires
        old(dom).wf(),
        parent < old(dom)@.len(),
        child < old(dom)@.len(),
        !is_fragment(old(dom)@[child as int]),
    ensures
        final(dom).wf(),
        final(dom)@ == placed_one(old(dom)@, parent, child, place),
        no_more_nesting(old(dom)@, final(dom)@),
{
    let ghost d = dom@;
    detach_from_parent(dom, child);
    let ghost e = dom@;
    proof {
        lemma_detached(d, child);
    }
    let is_parent = match dom.node(parent) {
        Node::Element(_) => true,
        Node::Document { .. } => true,
        _ => false,
    };
    if is_parent {
        let mut kids = child_nodes(dom, parent);
        let ghost before = kids@;
        proof {
            assert(node_ok(dom@[parent as int], dom@.len()));
            if let Place::Before(r) = place {
                lemma_index_in(before, r);
            }
        }
        put_in_list(&mut kids, child, place);
        proof {
            let at: int = match place {
                Place::End => before.len() as int,
                Place::Start => 0,
                Place::Before(r) => index_in(before, r) as int,
            };
            assert(kids@ == before.insert(at, child));
            assert forall|i: int| 0 <= i < kids@.len() implies (#[trigger] kids@[i] == child
                || before.contains(kids@[i])) by {
                if i < at {
                    assert(kids@[i] == before[i]);
                } else if i > at {
                    assert(kids@[i] == before[i - 1]);
                }
            }
            assert(links_ok(kids@, dom@.len()));
            assert(!is_fragment(e[child as int]));
            lemma_rechilded_nesting(e, parent, kids@);
            lemma_no_more_nesting_trans(d, e, rechilded(e, parent, kids@));
        }
        set_children(dom, parent, kids);
        proof {
            lemma_reparented_nesting(dom@, child, Some(parent));
            lemma_no_more_nesting_trans(d, dom@, reparented(dom@, child, Some(parent)));
        }
        set_parent(dom, child, parent);
    }
}

fn reversed(list: &Vec<NodePtr>) -> (res: Vec<NodePtr>)
    ensures
        res@ == list@.reverse(),
{
    let mut res: Vec<NodePtr> = Vec::new();
    let mut i: usize = list.len();
    while i > 0
        invariant
            i <= list.len(),
            res@.len() == list.len() - i,
            forall|j: int| 0 <= j < res@.len() ==> res@[j] == list@[list.len() - 1 - j],
        decreases i,
    {
        i = i - 1;
        res.push(list[i]);
    }
    assert(res@ =~= list@.reverse());
    res
}

fn place_within(dom: &mut Dom, parent: NodePtr, child: NodePtr, place: Place, Ghost(fuel): Ghost<nat>)
    requires
        old(dom).wf(),
        parent < old(dom)@.len(),
        child < old(dom)@.len(),
        is_fragment(old(dom)@[child as int]) ==> fuel > nesting(old(dom)@).len(),
    ensures
        final(dom).wf(),
        final(dom)@ == placed(old(dom)@, parent, child, place, fuel),
        no_more_nesting(old(dom)@, final(dom)@),
    decreases fuel,
{
    if !is_document_fragment(dom, child) {
        place_one(dom, parent, child, place);
        return;
    }
    let ghost d = dom@;
    let taken = child_nodes(dom, child);
    proof {
        assert(node_ok(dom@[child as int], dom@.len()));
        lemma_rechilded_nesting(d, child, Seq::empty());
        lemma_nesting_finite(d);
        lemma_nesting_finite(rechilded(d, child, Seq::empty()));
    }
    set_children(dom, child, Vec::new());
    let ghost e = dom@;
    let list: Vec<NodePtr> = match place {
        Place::Start => reversed(&taken),
        _ => taken,
    };
    proof {
        assert(list@ == insertion_order(children_of(d[child as int]), place));
        assert forall|i: int| 0 <= i < list@.len() implies #[trigger] list@[i] < d.len()
            && children_of(d[child as int]).contains(list@[i]) by {
            if place is Start {
                assert(list@[i] == children_of(d[child as int])[list@.len() - 1 - i]);
            }
        }
        if exists|i: int| 0 <= i < list@.len() && is_fragment(d[#[trigger] list@[i] as int]) {
            let i = choose|i: int|
                0 <= i < list@.len() && is_fragment(d[#[trigger] list@[i] as int]);
            let kids = children_of(d[child as int]);
            let j = choose|j: int| 0 <= j < kids.len() && kids[j] == list@[i];
            assert(is_fragment(d[children_of(d[child as int])[j] as int]));
            assert(nests(d, child as int));
            assert(!nests(e, child as int));
            assert(nesting(e).subset_of(nesting(d).remove(child as int))) by {
                assert forall|x: int| nesting(e).contains(x) implies nesting(d).remove(
                    child as int,
                ).contains(x) by {
                    assert(nests(e, x));
                    assert(nests(d, x));
                }
            }
            vstd::set_lib::lemma_len_subset(nesting(e), nesting(d).remove(child as int));
            assert(nesting(e).len() < nesting(d).len());
        }
    }
    let mut i: usize = 0;
    while i < list.len()
        invariant
            i <= list.len(),
            dom.wf(),
            fuel > 0,
            dom@.len() == d.len(),
            parent < d.len(),
            d == old(dom)@,
            no_more_nesting(d, e),
            no_more_nesting(e, dom@),
            forall|j: int| 0 <= j < list@.len() ==> #[trigger] list@[j] < d.len(),
            forall|j: int|
                0 <= j < list@.len() && is_fragment(d[#[trigger] list@[j] as int]) ==> fuel - 1
                    > nesting(e).len(),
            dom@ == placed_all(e, parent, list@.take(i as int), place, (fuel - 1) as nat),
        decreases list.len() - i,
    {
        let kid: NodePtr = list[i];
        let ghost mid = dom@;
        proof {
            let next = list@.take(i + 1);
            assert(next.drop_last() == list@.take(i as int));
            assert(next.last() == kid);
        }
        if let Place::Start = place {
            proof {
                lemma_detached(dom@, kid);
            }
            detach_from_parent(dom, kid);
        }
        proof {
            if !(place is Start) {
                assert(no_more_nesting(mid, dom@));
            }
            lemma_no_more_nesting_trans(e, mid, dom@);
            assert(is_fragment(dom@[kid as int]) == is_fragment(e[kid as int]));
            assert(is_fragment(e[kid as int]) == is_fragment(d[kid as int]));
            lemma_nesting_monotone(e, dom@);
        }
        let ghost entry = dom@;
        place_within(dom, parent, kid, place, Ghost((fuel - 1) as nat));
        proof {
            lemma_no_more_nesting_trans(e, entry, dom@);
        }
        i = i + 1;
    }
    proof {
        assert(list@.take(i as int) == list@);
        lemma_no_more_nesting_trans(d, e, dom@);
    }
}

/// More steps than fragments can nest.
pub open spec fn enough(d: DomView) -> nat {
    d.len() + 1
}

/// Move `child` behind the last child of `parent`.
pub fn append_child_ptr(dom: &mut Dom, parent: NodePtr, child: NodePtr)
    requires
        old(dom).wf(),
        parent < old(dom)@.len(),
        child < old(dom)@.len(),
    ensures
        final(dom).wf(),
        final(dom)@.len() == old(dom)@.len(),
        final(dom)@ == placed(old(dom)@, parent, child, Place::End, enough(old(dom)@)),
{
    proof {
        lemma_nesting_finite(dom@);
    }
    place_within(dom, parent, child, Place::End, Ghost(enough(dom@)));
}

/// Move `child` before the first child of `parent`.
pub fn prepend_child_ptr(dom: &mut Dom, parent: NodePtr, child: NodePtr)
    requires
        old(dom).wf(),
        parent < old(dom)@.len(),
        child < old(dom)@.len(),
    ensures
        final(dom).wf(),
        final(dom)@.len() == old(dom)@.len(),
        final(dom)@ == placed(old(dom)@, parent, child, Place::Start, enough(old(dom)@)),
{
    proof {
        lemma_nesting_finite(dom@);
    }
    place_within(dom, parent, child, Place::Start, Ghost(enough(dom@)));
}

/// The place before `ref_child`; the end where there is none.
pub open spec fn place_before(ref_child: Option<NodePtr>) -> Place {
    match ref_child {
        Some(r) => Place::Before(r),
        None => Place::End,
    }
}

/// Move `new_child` before `ref_child`, or to the end where `ref_child` is no
/// child of `parent`.
pub fn insert_before_ptr(
    dom: &mut Dom,
    parent: NodePtr,
    new_child: NodePtr,
    ref_child: Option<NodePtr>,
)
    requires
        old(dom).wf(),
        parent < old(dom)@.len(),
        new_child < old(dom)@.len(),
    ensures
        final(dom).wf(),
        final(dom)@.len() == old(dom)@.len(),
        final(dom)@ == placed(
            old(dom)@,
            parent,
            new_child,
            place_before(ref_child),
            enough(old(dom)@),
        ),
{
    proof {
        lemma_nesting_finite(dom@);
    }
    let place = match ref_child {
        Some(r) => Place::Before(r),
        None => Place::End,
    };
    place_within(dom, parent, new_child, place, Ghost(enough(dom@)));
}

/// The arena after `c` has been removed from the children of `p`.
pub open spec fn removed(d: DomView, p: NodePtr, c: NodePtr) -> DomView {
    if children_of(d[p as int]).contains(c) {
        reparented(rechilded(d, p, without(children_of(d[p as int]), c)), c, None)
    } else {
        d
    }
}

proof fn lemma_without_absent(s: Seq<NodePtr>, x: NodePtr)
    ensures
        !s.contains(x) ==> without(s, x) == s,
        s.contains(x) ==> without(s, x).len() < s.len(),
    decreases s.len(),
{
    reveal(Seq::filter);
    if s.len() > 0 {
        let t = s.drop_last();
        lemma_without_absent(t, x);
        lemma_without(t, x);
        assert(s == t.push(s.last()));
        if s.contains(x) && s.last() != x {
            let i = choose|i: int| 0 <= i < s.len() && s[i] == x;
            assert(t[i] == x);
        }
        if !s.contains(x) {
            assert(s[s.len() - 1] != x);
            if t.contains(x) {
                let i = choose|i: int| 0 <= i < t.len() && t[i] == x;
                assert(s[i] == x);
            }
        }
    }
}

/// Remove `child` from the children of `parent` and clear its parent; nothing
/// happens where it is no child.
pub fn remove_child_ptr(dom: &mut Dom, parent: NodePtr, child: NodePtr)
    requires
        old(dom).wf(),
        parent < old(dom)@.len(),
        child < old(dom)@.len(),
    ensures
        final(dom).wf(),
        final(dom)@.len() == old(dom)@.len(),
        final(dom)@ == removed(old(dom)@, parent, child),
{
    let kids = child_nodes(dom, parent);
    let kept = list_without(&kids, child);
    proof {
        lemma_without_absent(kids@, child);
        lemma_without(kids@, child);
        assert(node_ok(dom@[parent as int], dom@.len()));
        assert(links_ok(kids@, dom@.len()));
    }
    if kept.len() != kids.len() {
        set_children(dom, parent, kept);
        clear_parent(dom, child);
    }
}

/// `kids` with the first `x` replaced by the nodes of `list`.
pub open spec fn substituted(kids: Seq<NodePtr>, x: NodePtr, list: Seq<NodePtr>) -> Seq<NodePtr> {
    kids.take(index_in(kids, x) as int) + list + kids.skip(index_in(kids, x) as int + 1)
}

/// The arena after `new` has taken the place of `old_child` among the children
/// of `p`. A fragment is replaced by its children, which it loses in any case.
pub open spec fn replaced(d: DomView, p: NodePtr, new: NodePtr, old_child: NodePtr) -> DomView {
    if is_fragment(d[new as int]) {
        let list = children_of(d[new as int]);
        let e = rechilded(d, new, Seq::empty());
        let kids = children_of(e[p as int]);
        if kids.contains(old_child) {
            reparented(
                adopted(rechilded(e, p, substituted(kids, old_child, list)), list, p),
                old_child,
                None,
            )
        } else {
            e
        }
    } else {
        let e = detached(d, new);
        let kids = children_of(e[p as int]);
        if kids.contains(old_child) {
            reparented(
                reparented(
                    rechilded(e, p, substituted(kids, old_child, seq![new])),
                    new,
                    Some(p),
                ),
                old_child,
                None,
            )
        } else {
            e
        }
    }
}

/// Put `new_child`, or the children of the fragment `new_child`, in the place
/// of `old_child` among the children of `parent`.
pub fn replace_child_ptr(dom: &mut Dom, parent: NodePtr, new_child: NodePtr, old_child: NodePtr)
    requires
        old(dom).wf(),
        parent < old(dom)@.len(),
        new_child < old(dom)@.len(),
        old_child < old(dom)@.len(),
        is_fragment(old(dom)@[new_child as int]) && new_child != parent && children_of(
            old(dom)@[parent as int],
        ).contains(old_child) ==> !children_of(old(dom)@[new_child as int]).contains(parent),
    ensures
        final(dom).wf(),
        final(dom)@.len() == old(dom)@.len(),
        final(dom)@ == replaced(old(dom)@, parent, new_child, old_child),
{
    let ghost d = dom@;
    let fragment = is_document_fragment(dom, new_child);
    let mut list: Vec<NodePtr> = Vec::new();
    if fragment {
        proof {
            assert(node_ok(dom@[new_child as int], dom@.len()));
        }
        list = child_nodes(dom, new_child);
        set_children(dom, new_child, Vec::new());
    } else {
        list.push(new_child);
        assert(list@ == seq![new_child]);
        detach_from_parent(dom, new_child);
    }
    let ghost e = dom@;
    let mut kids = child_nodes(dom, parent);
    let at: usize = position_of(&kids, old_child);
    if at < kids.len() {
        let ghost before = kids@;
        proof {
            assert(node_ok(dom@[parent as int], dom@.len()));
            assert(links_ok(before, dom@.len()));
        }
        let mut rest = kids.split_off(at);
        let _ = rest.remove(0);
        let mut middle = copy_list(&list);
        kids.append(&mut middle);
        kids.append(&mut rest);
        proof {
            assert(kids@ =~= substituted(before, old_child, list@));
            assert forall|i: int| 0 <= i < kids@.len() implies #[trigger] kids@[i] < dom@.len() by {
                if i < at {
                    assert(kids@[i] == before[i]);
                } else if i < at + list@.len() {
                    assert(kids@[i] == list@[i - at]);
                } else {
                    assert(kids@[i] == before[i - list@.len() + 1]);
                }
            }
        }
        set_children(dom, parent, kids);
        let ghost base = dom@;
        let mut i: usize = 0;
        while i < list.len()
            invariant
                i <= list.len(),
                dom.wf(),
                parent < d.len(),
                dom@.len() == d.len(),
                links_ok(list@, d.len()),
                dom@ == adopted(base, list@.take(i as int), parent),
            decreases list.len() - i,
        {
            proof {
                let next = list@.take(i + 1);
                assert(next.drop_last() == list@.take(i as int));
                assert(next.last() == list@[i as int]);
            }
            set_parent(dom, list[i], parent);
            i = i + 1;
        }
        proof {
            assert(list@.take(i as int) == list@);
            if !fragment {
                assert(list@.drop_last() == Seq::<NodePtr>::empty());
                assert(adopted(base, list@, parent) == reparented(
                    adopted(base, list@.drop_last(), parent),
                    new_child,
                    Some(parent),
                ));
                assert(adopted(base, list@.drop_last(), parent) == base);
            }
        }
        clear_parent(dom, old_child);
    }
}

/// The nodes that an insertion of `node` brings: the children of a fragment,
/// otherwise the node itself.
pub open spec fn brought(d: DomView, node: NodePtr) -> Seq<NodePtr> {
    if is_fragment(d[node as int]) {
        children_of(d[node as int])
    } else {
        seq![node]
    }
}

/// The children of a document fragment.
pub fn document_fragment_children(dom: &Dom, node: NodePtr) -> (res: Option<Vec<NodePtr>>)
    requires
        node < dom@.len(),
    ensures
        match res {
            Some(list) => is_fragment(dom@[node as int]) && list@ == children_of(
                dom@[node as int],
            ),
            None => !is_fragment(dom@[node as int]),
        },
{
    if is_document_fragment(dom, node) {
        Some(child_nodes(dom, node))
    } else {
        None
    }
}

/// The nodes that an insertion of `node` brings.
pub fn insertion_nodes(dom: &Dom, node: NodePtr) -> (res: Vec<NodePtr>)
    requires
        node < dom@.len(),
    ensures
        res@ == brought(dom@, node),
{
    match document_fragment_children(dom, node) {
        Some(list) => list,
        None => {
            let mut res: Vec<NodePtr> = Vec::new();
            res.push(node);
            assert(res@ == seq![node]);
            res
        },
    }
}

/// Takes the children of a document fragment, leaving it empty.
pub fn take_document_fragment_children(dom: &mut Dom, node: NodePtr) -> (res: Option<Vec<NodePtr>>)
    requires
        old(dom).wf(),
        node < old(dom)@.len(),
    ensures
        final(dom).wf(),
        match res {
            Some(list) => is_fragment(old(dom)@[node as int]) && list@ == children_of(
                old(dom)@[node as int],
            ) && final(dom)@ == rechilded(old(dom)@, node, Seq::empty()),
            None => !is_fragment(old(dom)@[node as int]) && final(dom)@ == old(dom)@,
        },
{
    if is_document_fragment(dom, node) {
        let list = child_nodes(dom, node);
        set_children(dom, node, Vec::new());
        Some(list)
    } else {
        None
    }
}

/// Steps that a connectivity walk takes at most.
pub const MAX_CONNECTIVITY_STEPS: u32 = 100_000;

/// Whether `document` is met on the way up from `node` within `steps` nodes.
pub open spec fn reaches(d: DomView, document: NodePtr, node: NodePtr, steps: nat) -> bool
    decreases steps,
{
    steps > 0 && (node == document || (parent_of(d[node as int]) matches Some(p) && reaches(
        d,
        document,
        p,
        (steps - 1) as nat,
    )))
}

/// Whether `node` is reachable from `document` by parent back-pointers. The
/// walk is bounded, so that a cycle of stale pointers ends it.
pub fn is_connected_to(dom: &Dom, document: NodePtr, node: NodePtr) -> (res: bool)
    requires
        dom.wf(),
        node < dom@.len(),
    ensures
        res == reaches(dom@, document, node, MAX_CONNECTIVITY_STEPS as nat),
{
    let mut current: NodePtr = node;
    let mut steps: u32 = MAX_CONNECTIVITY_STEPS;
    while steps > 0
        invariant
            dom.wf(),
            current < dom@.len(),
            reaches(dom@, document, current, steps as nat) == reaches(
                dom@,
                document,
                node,
                MAX_CONNECTIVITY_STEPS as nat,
            ),
        decreases steps,
    {
        if current == document {
            return true;
        }
        proof {
            assert(node_ok(dom@[current as int], dom@.len()));
        }
        match parent_ptr(dom, current) {
            Some(p) => {
                current = p;
            },
            None => {
                return false;
            },
        }
        steps = steps - 1;
    }
    false
}

/// Replaces the text of a node: an element gets one fresh text child, whose
/// parent is not set; character data is overwritten; a document stays.
pub open spec fn with_text(d: DomView, n: NodePtr, text: Seq<char>) -> DomView {
    match d[n as int] {
        NodeView::Element(el) => rechilded(
            d.push(NodeView::Text { content: text, parent: None }),
            n,
            seq![d.len() as NodePtr],
        ),
        _ => d.update(n as int, with_content(d[n as int], text)),
    }
}

/// Set the text content of `node`.
pub fn set_text_content(dom: &mut Dom, node: NodePtr, text: &str)
    requires
        old(dom).wf(),
        node < old(dom)@.len(),
    ensures
        final(dom).wf(),
        final(dom)@ == with_text(old(dom)@, node, text@),
{
    if is_element_node(dom, node) {
        let child: NodePtr = Node::text(dom, text);
        let mut kids: Vec<NodePtr> = Vec::new();
        kids.push(child);
        assert(kids@ == seq![child]);
        set_children(dom, node, kids);
    } else {
        set_content(dom, node, text);
    }
}

/// The text content of `n`: its data for a text or comment node, otherwise the
/// text of all descendants in tree order, comments left out.
pub open spec fn text_of(d: DomView, n: NodePtr, fuel: nat) -> Seq<char>
    decreases fuel, 1nat, 0nat,
{
    match d[n as int] {
        NodeView::Text { content, parent } => content,
        NodeView::Comment { content, parent } => content,
        NodeView::Element(el) => text_of_all(d, el.children, fuel),
        NodeView::Document { children, mode } => text_of_all(d, children, fuel),
    }
}

/// The text that the nodes of a child list contribute to their parent.
pub open spec fn text_of_all(d: DomView, kids: Seq<NodePtr>, fuel: nat) -> Seq<char>
    decreases fuel, 0nat, kids.len(),
{
    if kids.len() == 0 || fuel == 0 {
        Seq::empty()
    } else {
        text_of_all(d, kids.drop_last(), fuel) + (if d[kids.last() as int] is Comment {
            Seq::empty()
        } else {
            text_of(d, kids.last(), (fuel - 1) as nat)
        })
    }
}

/// The text content of `node`.
pub fn collect_text(dom: &Dom, node: NodePtr) -> (res: String)
    requires
        dom.wf(),
        finite_from(dom@, node, Reach::Children),
    ensures
        res@ == text_of(dom@, node, dom@.len()),
{
    let mut res = String::new();
    collect_text_within(dom, node, &mut res, Ghost(dom@.len()));
    assert(res@ =~= text_of(dom@, node, dom@.len()));
    res
}

fn collect_text_within(dom: &Dom, node: NodePtr, out: &mut String, Ghost(fuel): Ghost<nat>)
    requires
        dom.wf(),
        ends_within(dom@, node, Reach::Children, fuel),
    ensures
        final(out)@ == old(out)@ + text_of(dom@, node, fuel),
    decreases fuel, 0nat,
{
    let ghost start = out@;
    match dom.node(node) {
        Node::Text(t) => {
            out.push_str(t.content.as_str());
        },
        Node::Comment(t) => {
            out.push_str(t.content.as_str());
        },
        _ => {
            let kids = child_nodes(dom, node);
            let mut i: usize = 0;
            assert(out@ =~= start + text_of_all(dom@, kids@.take(0), fuel));
            while i < kids.len()
                invariant
                    i <= kids.len(),
                    dom.wf(),
                    ends_within(dom@, node, Reach::Children, fuel),
                    kids@ == children_of(dom@[node as int]),
                    out@ == start + text_of_all(dom@, kids@.take(i as int), fuel),
                decreases kids.len() - i,
            {
                let kid: NodePtr = kids[i];
                let ghost so_far = text_of_all(dom@, kids@.take(i as int), fuel);
                proof {
                    let next = kids@.take(i + 1);
                    assert(next.drop_last() == kids@.take(i as int));
                    assert(next.last() == kid);
                    assert(followed(dom@[node as int], Reach::Children)[i as int] == kid);
                    assert(ends_within(dom@, kid, Reach::Children, (fuel - 1) as nat));
                }
                collect_descendant_text(dom, kid, out, Ghost((fuel - 1) as nat));
                proof {
                    let part = if dom@[kid as int] is Comment {
                        Seq::empty()
                    } else {
                        text_of(dom@, kid, (fuel - 1) as nat)
                    };
                    assert((start + so_far) + part =~= start + (so_far + part));
                }
                i = i + 1;
            }
            assert(kids@.take(i as int) == kids@);
        },
    }
}

/// What a child contributes to its parent's text; nothing for a comment.
fn collect_descendant_text(dom: &Dom, node: NodePtr, out: &mut String, Ghost(fuel): Ghost<nat>)
    requires
        dom.wf(),
        ends_within(dom@, node, Reach::Children, fuel),
    ensures
        final(out)@ == old(out)@ + (if dom@[node as int] is Comment {
            Seq::empty()
        } else {
            text_of(dom@, node, fuel)
        }),
    decreases fuel, 1nat,
{
    if matches!(dom.node(node), Node::Comment(_)) {
        assert(out@ =~= old(out)@ + Seq::<char>::empty());
        return;
    }
    collect_text_within(dom, node, out, Ghost(fuel));
}

/// Whether `other` is `n` or one of its descendants.
pub open spec fn holds_node(d: DomView, n: NodePtr, other: NodePtr, fuel: nat) -> bool
    decreases fuel,
{
    n == other || (fuel > 0 && exists|i: int|
        0 <= i < children_of(d[n as int]).len() && holds_node(
            d,
            #[trigger] children_of(d[n as int])[i],
            other,
            (fuel - 1) as nat,
        ))
}

/// Whether `other` is `parent` or one of its descendants.
pub fn contains_ptr(dom: &Dom, parent: NodePtr, other: NodePtr) -> (res: bool)
    requires
        dom.wf(),
        finite_from(dom@, parent, Reach::Children),
    ensures
        res == holds_node(dom@, parent, other, dom@.len()),
{
    contains_within(dom, parent, other, Ghost(dom@.len()))
}

fn contains_within(dom: &Dom, parent: NodePtr, other: NodePtr, Ghost(fuel): Ghost<nat>) -> (res: bool)
    requires
        dom.wf(),
        ends_within(dom@, parent, Reach::Children, fuel),
    ensures
        res == holds_node(dom@, parent, other, fuel),
    decreases fuel,
{
    if parent == other {
        return true;
    }
    let kids = child_nodes(dom, parent);
    let mut i: usize = 0;
    while i < kids.len()
        invariant
            i <= kids.len(),
            dom.wf(),
            parent != other,
            ends_within(dom@, parent, Reach::Children, fuel),
            kids@ == children_of(dom@[parent as int]),
            forall|j: int|
                0 <= j < i ==> !holds_node(
                    dom@,
                    #[trigger] children_of(dom@[parent as int])[j],
                    other,
                    (fuel - 1) as nat,
                ),
        decreases kids.len() - i,
    {
        proof {
            assert(followed(dom@[parent as int], Reach::Children)[i as int] == kids@[i as int]);
        }
        if contains_within(dom, kids[i], other, Ghost((fuel - 1) as nat)) {
            assert(children_of(dom@[parent as int])[i as int] == kids@[i as int]);
            return true;
        }
        i = i + 1;
    }
    false
}

/// Insertion is a move: a single node that is put into a container ends up
/// among its children, points at it, and is gone from the child list of any
/// other parent that it had.
pub proof fn law_insertion_is_a_move(d: DomView, p: NodePtr, c: NodePtr, place: Place)
    requires
        closed_links(d),
        p < d.len(),
        c < d.len(),
        !is_fragment(d[c as int]),
        is_container(d[p as int]),
    ensures
        ({
            let e = placed(d, p, c, place, enough(d));
            &&& children_of(e[p as int]).contains(c)
            &&& d[c as int] is Document || parent_of(e[c as int]) == Some(p)
            &&& parent_of(d[c as int]) matches Some(q) ==> q != p ==> !children_of(
                e[q as int],
            ).contains(c)
        }),
{
    assert(node_ok(d[c as int], d.len()));
    let a = detached(d, c);
    let kids = children_of(a[p as int]);
    let e = placed(d, p, c, place, enough(d));
    assert(is_container(a[p as int]));
    if let Place::Before(r) = place {
        lemma_index_in(kids, r);
    }
    let at: int = match place {
        Place::End => kids.len() as int,
        Place::Start => 0,
        Place::Before(r) => index_in(kids, r) as int,
    };
    assert(put(kids, c, place) =~= kids.insert(at, c));
    assert(children_of(e[p as int]) == put(kids, c, place));
    assert(children_of(e[p as int])[at] == c);
    if let Some(q) = parent_of(d[c as int]) {
        if q != p {
            lemma_without(children_of(d[q as int]), c);
            if is_container(d[q as int]) {
                assert(children_of(a[q as int]) == without(children_of(d[q as int]), c));
            }
            assert(children_of(e[q as int]) == children_of(a[q as int]));
        }
    }
}

/// Whether the nodes of `list` are distinct single nodes that point at `f`.
pub open spec fn plain_children(d: DomView, f: NodePtr, list: Seq<NodePtr>) -> bool {
    &&& forall|i: int, j: int| 0 <= i < j < list.len() ==> list[i] != list[j]
    &&& forall|i: int|
        0 <= i < list.len() ==> #[trigger] list[i] < d.len() && list[i] != f && !is_fragment(
            d[list[i] as int],
        ) && parent_of(d[list[i] as int]) == Some(f)
}

/// A fragment hands its children over in order: they end up as one block, where
/// the insertion puts them, and the fragment is left empty.
pub proof fn law_fragment_hands_over_its_children(
    d: DomView,
    p: NodePtr,
    f: NodePtr,
    place: Place,
)
    requires
        closed_links(d),
        p < d.len(),
        f < d.len(),
        p != f,
        is_fragment(d[f as int]),
        is_container(d[p as int]),
        plain_children(d, f, children_of(d[f as int])),
        !children_of(d[f as int]).contains(p),
        place matches Place::Before(r) ==> !children_of(d[f as int]).contains(r),
    ensures
        ({
            let e = placed(d, p, f, place, enough(d));
            let kids = children_of(d[p as int]);
            let at: int = match place {
                Place::End => kids.len() as int,
                Place::Start => 0,
                Place::Before(r) => index_in(kids, r) as int,
            };
            &&& children_of(e[p as int]) == kids.take(at) + children_of(d[f as int]) + kids.skip(at)
            &&& children_of(e[f as int]) == Seq::<NodePtr>::empty()
        }),
{
    let list = children_of(d[f as int]);
    let a = rechilded(d, f, Seq::empty());
    let kids = children_of(d[p as int]);
    if let Place::Before(r) = place {
        lemma_index_in(kids, r);
    }
    let at: int = match place {
        Place::End => kids.len() as int,
        Place::Start => 0,
        Place::Before(r) => index_in(kids, r) as int,
    };
    let steps = (enough(d) - 1) as nat;
    let order = insertion_order(list, place);
    if place is Start {
        assert forall|i: int| 0 <= i < order.len() implies #[trigger] order[i] == list[list.len() - 1
            - i] by {}
        assert(plain_children(a, f, order)) by {
            assert forall|i: int, j: int| 0 <= i < j < order.len() implies order[i] != order[j] by {
                assert(order[i] == list[list.len() - 1 - i]);
                assert(order[j] == list[list.len() - 1 - j]);
            }
            assert forall|i: int| 0 <= i < order.len() implies #[trigger] order[i] < a.len()
                && order[i] != f && !is_fragment(a[order[i] as int]) && parent_of(
                a[order[i] as int],
            ) == Some(f) by {
                assert(order[i] == list[list.len() - 1 - i]);
            }
        }
        assert(!order.contains(p)) by {
            if order.contains(p) {
                let i = choose|i: int| 0 <= i < order.len() && order[i] == p;
                assert(list[list.len() - 1 - i] == p);
            }
        }
        lemma_block_at_start(a, p, f, order, order.len(), kids, steps);
        assert(order.take(order.len() as int).reverse() =~= list);
        assert(order.take(order.len() as int) =~= order);
        assert(kids.take(0) + list + kids.skip(0) =~= list + kids);
    } else {
        lemma_block(a, p, f, list, list.len(), kids, at, place, steps);
        assert(list.take(list.len() as int) == list);
    }
    assert(placed(d, p, f, place, enough(d)) == placed_all(a, p, order, place, steps));
}

/// The state after the first `done` nodes of a list have moved from an emptied
/// fragment to the start of `p`, each before the ones that moved earlier.
proof fn lemma_block_at_start(
    a: DomView,
    p: NodePtr,
    f: NodePtr,
    list: Seq<NodePtr>,
    done: nat,
    kids: Seq<NodePtr>,
    steps: nat,
)
    requires
        p < a.len(),
        f < a.len(),
        p != f,
        is_container(a[p as int]),
        is_fragment(a[f as int]),
        children_of(a[f as int]) == Seq::<NodePtr>::empty(),
        children_of(a[p as int]) == kids,
        plain_children(a, f, list),
        !list.contains(p),
        done <= list.len(),
    ensures
        ({
            let e = placed_all(a, p, list.take(done as int), Place::Start, steps);
            &&& e.len() == a.len()
            &&& is_container(e[p as int])
            &&& is_fragment(e[f as int])
            &&& children_of(e[f as int]) == Seq::<NodePtr>::empty()
            &&& children_of(e[p as int]) == list.take(done as int).reverse() + kids
            &&& forall|i: int|
                done <= i < list.len() ==> e[#[trigger] list[i] as int] == a[list[i] as int]
        }),
    decreases done,
{
    let e = placed_all(a, p, list.take(done as int), Place::Start, steps);
    if done == 0 {
        assert(list.take(0).reverse() + kids =~= kids);
    } else {
        let less = (done - 1) as nat;
        lemma_block_at_start(a, p, f, list, less, kids, steps);
        let b = placed_all(a, p, list.take(less as int), Place::Start, steps);
        assert(list.take(done as int).drop_last() == list.take(less as int));
        let c = list[less as int];
        assert(list.take(done as int).last() == c);
        assert(b[c as int] == a[c as int]);
        reveal(Seq::filter);
        assert(without(Seq::<NodePtr>::empty(), c) == Seq::<NodePtr>::empty());
        assert(detached(b, c) =~= b) by {
            assert(parent_of(b[c as int]) == Some(f));
            assert(with_children(b[f as int], Seq::empty()) == b[f as int]);
        }
        assert(e == placed(detached(b, c), p, c, Place::Start, steps));
        assert(!is_fragment(b[c as int]));
        assert(e == placed_one(b, p, c, Place::Start));
        assert(put(children_of(b[p as int]), c, Place::Start) =~= list.take(done as int).reverse()
            + kids);
        assert forall|i: int| done <= i < list.len() implies e[#[trigger] list[i] as int]
            == a[list[i] as int] by {
            assert(list[i] != c);
            assert(list[i] != p);
        }
        assert(c != p) by {
            assert(list.contains(list[less as int]));
        }
    }
}

/// The position of `r` behind a block that does not hold it.
proof fn lemma_index_behind(a: Seq<NodePtr>, block: Seq<NodePtr>, b: Seq<NodePtr>, r: NodePtr)
    requires
        !a.contains(r),
        !block.contains(r),
    ensures
        index_in(a + block + b, r) == a.len() + block.len() + index_in(b, r),
    decreases a.len() + block.len(),
{
    let s = a + block + b;
    if a.len() > 0 {
        assert(s[0] == a[0]);
        assert(s.drop_first() =~= a.drop_first() + block + b);
        assert(a[0] != r);
        assert(!a.drop_first().contains(r)) by {
            if a.drop_first().contains(r) {
                let i = choose|i: int| 0 <= i < a.drop_first().len() && a.drop_first()[i] == r;
                assert(a[i + 1] == r);
            }
        }
        lemma_index_behind(a.drop_first(), block, b, r);
    } else if block.len() > 0 {
        assert(s[0] == block[0]);
        assert(s.drop_first() =~= a + block.drop_first() + b);
        assert(block[0] != r);
        assert(!block.drop_first().contains(r)) by {
            if block.drop_first().contains(r) {
                let i = choose|i: int|
                    0 <= i < block.drop_first().len() && block.drop_first()[i] == r;
                assert(block[i + 1] == r);
            }
        }
        lemma_index_behind(a, block.drop_first(), b, r);
    } else {
        assert(s =~= b);
    }
}

proof fn lemma_prefix_lacks(s: Seq<NodePtr>, r: NodePtr)
    ensures
        !s.take(index_in(s, r) as int).contains(r),
        index_in(s.skip(index_in(s, r) as int), r) == 0,
    decreases s.len(),
{
    lemma_index_in(s, r);
    let n = index_in(s, r) as int;
    if s.len() > 0 && s[0] != r {
        lemma_prefix_lacks(s.drop_first(), r);
        lemma_index_in(s.drop_first(), r);
        assert(s.skip(n) =~= s.drop_first().skip(n - 1));
        if s.take(n).contains(r) {
            let i = choose|i: int| 0 <= i < s.take(n).len() && s.take(n)[i] == r;
            assert(s.drop_first().take(n - 1)[i - 1] == r);
        }
    }
}

/// The state after the first `done` children of an emptied fragment have moved.
proof fn lemma_block(
    a: DomView,
    p: NodePtr,
    f: NodePtr,
    list: Seq<NodePtr>,
    done: nat,
    kids: Seq<NodePtr>,
    at: int,
    place: Place,
    steps: nat,
)
    requires
        p < a.len(),
        f < a.len(),
        p != f,
        is_container(a[p as int]),
        is_fragment(a[f as int]),
        children_of(a[f as int]) == Seq::<NodePtr>::empty(),
        children_of(a[p as int]) == kids,
        plain_children(a, f, list),
        !list.contains(p),
        done <= list.len(),
        0 <= at <= kids.len(),
        place is End ==> at == kids.len(),
        place matches Place::Before(r) ==> at == index_in(kids, r) && !list.contains(r),
        !(place is Start),
    ensures
        ({
            let e = placed_all(a, p, list.take(done as int), place, steps);
            &&& e.len() == a.len()
            &&& is_container(e[p as int])
            &&& is_fragment(e[f as int])
            &&& children_of(e[f as int]) == Seq::<NodePtr>::empty()
            &&& children_of(e[p as int]) == kids.take(at) + list.take(done as int) + kids.skip(at)
            &&& forall|i: int|
                done <= i < list.len() ==> e[#[trigger] list[i] as int] == a[list[i] as int]
        }),
    decreases done,
{
    let e = placed_all(a, p, list.take(done as int), place, steps);
    if done == 0 {
        assert(kids =~= kids.take(at) + list.take(0) + kids.skip(at));
    } else {
        let less = (done - 1) as nat;
        lemma_block(a, p, f, list, less, kids, at, place, steps);
        let b = placed_all(a, p, list.take(less as int), place, steps);
        assert(list.take(done as int).drop_last() == list.take(less as int));
        let c = list[less as int];
        assert(list.take(done as int).last() == c);
        assert(b[c as int] == a[c as int]);
        assert(e == placed(b, p, c, place, steps));
        assert(e == placed_one(b, p, c, place));
        reveal(Seq::filter);
        assert(without(Seq::<NodePtr>::empty(), c) == Seq::<NodePtr>::empty());
        assert(detached(b, c) =~= b) by {
            assert(parent_of(b[c as int]) == Some(f));
            assert(with_children(b[f as int], Seq::empty()) == b[f as int]);
        }
        let now = children_of(b[p as int]);
        let front = kids.take(at);
        let block = list.take(less as int);
        let back = kids.skip(at);
        assert(put(now, c, place) =~= front + list.take(done as int) + back) by {
            match place {
                Place::Before(r) => {
                    lemma_prefix_lacks(kids, r);
                    assert(!block.contains(r)) by {
                        if block.contains(r) {
                            let i = choose|i: int| 0 <= i < block.len() && block[i] == r;
                            assert(list[i] == r);
                        }
                    }
                    lemma_index_behind(front, block, back, r);
                },
                _ => {
                    assert(back.len() == 0);
                },
            }
        }
        assert forall|i: int| done <= i < list.len() implies e[#[trigger] list[i] as int]
            == a[list[i] as int] by {
            assert(list[i] != c);
            assert(list[i] != p);
        }
        assert(c != p) by {
            assert(list.contains(list[less as int]));
        }
    }
}

/// Removing a node that was just appended restores the child list and leaves
/// the node without parent.
pub proof fn law_remove_undoes_append(d: DomView, p: NodePtr, c: NodePtr)
    requires
        closed_links(d),
        p < d.len(),
        c < d.len(),
        c != p,
        !is_fragment(d[c as int]),
        is_container(d[p as int]),
        parent_of(d[c as int]) is None,
        !children_of(d[p as int]).contains(c),
    ensures
        removed(placed(d, p, c, Place::End, enough(d)), p, c) == d,
{
    let e = placed(d, p, c, Place::End, enough(d));
    let kids = children_of(d[p as int]);
    assert(children_of(e[p as int]) == kids.push(c));
    assert(kids.push(c)[kids.len() as int] == c);
    reveal(Seq::filter);
    assert(kids.push(c).drop_last() =~= kids);
    lemma_without_absent(kids, c);
    assert(without(kids.push(c), c) == kids);
    assert(removed(e, p, c) =~= d) by {
        assert(with_children(with_children(d[p as int], kids.push(c)), kids) == d[p as int]);
    }
}

/// Replacing a child leaves every other child in its place: what stood before it
/// still does, the new nodes start where it stood, and what stood behind it
/// follows them. A node that comes from elsewhere among the same children has
/// left its old place before. The new nodes have the parent, and the old one has
/// none.
pub proof fn law_replacement_takes_the_place(
    d: DomView,
    p: NodePtr,
    new: NodePtr,
    old_child: NodePtr,
    i: int,
    list: Seq<NodePtr>,
)
    requires
        closed_links(d),
        p < d.len(),
        new < d.len(),
        old_child < d.len(),
        new != old_child,
        new != p,
        is_fragment(d[new as int]) ==> !children_of(d[new as int]).contains(p),
        !is_fragment(d[new as int]) && parent_of(d[new as int]) != Some(p) ==> !children_of(
            d[p as int],
        ).contains(new),
        ({
            let kids = children_of(d[p as int]).filter(|x: NodePtr| x != new);
            &&& 0 <= i < kids.len()
            &&& kids[i] == old_child
            &&& forall|j: int| 0 <= j < i ==> #[trigger] kids[j] != old_child
        }),
        is_fragment(d[new as int]) ==> !children_of(d[p as int]).contains(new),
        list == (if is_fragment(d[new as int]) {
            children_of(d[new as int])
        } else {
            seq![new]
        }),
    ensures
        ({
            let kids = children_of(d[p as int]).filter(|x: NodePtr| x != new);
            let e = replaced(d, p, new, old_child);
            let now = children_of(e[p as int]);
            &&& now.len() == kids.len() - 1 + list.len()
            &&& forall|j: int| 0 <= j < i ==> #[trigger] now[j] == kids[j]
            &&& forall|j: int| 0 <= j < list.len() ==> now[i + j] == #[trigger] list[j]
            &&& forall|j: int|
                i < j < kids.len() ==> now[j - 1 + list.len()] == #[trigger] kids[j]
            &&& forall|j: int|
                0 <= j < list.len() && !(d[list[j] as int] is Document) && list[j] != old_child
                    ==> parent_of(e[#[trigger] list[j] as int]) == Some(p)
            &&& parent_of(e[old_child as int]) is None
            &&& is_fragment(d[new as int]) ==> children_of(e[new as int]).len() == 0
        }),
{
    let all = children_of(d[p as int]);
    let other = |x: NodePtr| x != new;
    let kids = all.filter(other);
    lemma_filter_is_without(all, new);
    lemma_without(all, new);
    if !all.contains(new) {
        lemma_without_nothing(all, new);
    }
    assert(kids.contains(old_child));
    lemma_index_in(kids, old_child);
    lemma_first_index(kids, old_child, i);
    if is_fragment(d[new as int]) {
        let list = children_of(d[new as int]);
        let e = rechilded(d, new, Seq::empty());
        assert(children_of(e[p as int]) == kids);
        let f = rechilded(e, p, substituted(kids, old_child, list));
        assert(node_ok(d[new as int], d.len()));
        lemma_adopted_links(f, list, p);
        assert forall|j: int|
            0 <= j < list.len() && !(d[list[j] as int] is Document) && list[j]
                != old_child implies parent_of(
            replaced(d, p, new, old_child)[#[trigger] list[j] as int],
        ) == Some(p) by {
            assert(list.contains(list[j]));
            assert(list[j] < d.len());
        }
    } else {
        let e = detached(d, new);
        assert(children_of(e[p as int]) == kids) by {
            if let Some(q) = parent_of(d[new as int]) {
                assert(node_ok(d[new as int], d.len()));
            }
        }
        assert(e.len() == d.len());
    }
}

pub proof fn lemma_filter_is_without(s: Seq<NodePtr>, x: NodePtr)
    ensures
        s.filter(|y: NodePtr| y != x) == without(s, x),
    decreases s.len(),
{
    reveal(Seq::filter);
    if s.len() > 0 {
        lemma_filter_is_without(s.drop_last(), x);
    }
}

pub proof fn lemma_without_nothing(s: Seq<NodePtr>, x: NodePtr)
    requires
        !s.contains(x),
    ensures
        without(s, x) == s,
    decreases s.len(),
{
    reveal(Seq::filter);
    if s.len() > 0 {
        assert forall|y: NodePtr| s.drop_last().contains(y) implies s.contains(y) by {
            let i = choose|i: int| 0 <= i < s.drop_last().len() && s.drop_last()[i] == y;
            assert(s[i] == y);
        }
        lemma_without_nothing(s.drop_last(), x);
        assert(s[s.len() - 1] == s.last());
        assert(without(s, x) =~= s);
    } else {
        assert(without(s, x) =~= s);
    }
}

pub proof fn lemma_first_index(s: Seq<NodePtr>, x: NodePtr, i: int)
    requires
        0 <= i < s.len(),
        s[i] == x,
        forall|j: int| 0 <= j < i ==> #[trigger] s[j] != x,
    ensures
        index_in(s, x) == i,
    decreases s.len(),
{
    if i > 0 {
        assert(s[0] != x);
        let rest = s.drop_first();
        assert forall|j: int| 0 <= j < i - 1 implies #[trigger] rest[j] != x by {
            assert(rest[j] == s[j + 1]);
        }
        lemma_first_index(rest, x, i - 1);
    }
}

/// Adoption sets parents, and changes nothing else.
proof fn lemma_adopted_links(d: DomView, list: Seq<NodePtr>, p: NodePtr)
    requires
        links_ok(list, d.len()),
    ensures
        adopted(d, list, p).len() == d.len(),
        forall|n: int|
            0 <= n < d.len() ==> children_of(#[trigger] adopted(d, list, p)[n]) == children_of(d[n])
                && (adopted(d, list, p)[n] is Document <==> d[n] is Document),
        forall|n: NodePtr|
            list.contains(n) && !(d[n as int] is Document) ==> parent_of(
                #[trigger] adopted(d, list, p)[n as int],
            ) == Some(p),
    decreases list.len(),
{
    if list.len() > 0 {
        let front = list.drop_last();
        assert forall|i: int| 0 <= i < front.len() implies #[trigger] front[i] < d.len() by {
            assert(list[i] < d.len());
        }
        lemma_adopted_links(d, front, p);
        assert(list[list.len() - 1] < d.len());
        let e = adopted(d, front, p);
        assert forall|n: NodePtr| list.contains(n) && !(d[n as int] is Document) implies parent_of(
            #[trigger] adopted(d, list, p)[n as int],
        ) == Some(p) by {
            let i = choose|i: int| 0 <= i < list.len() && list[i] == n;
            assert(n < d.len());
            if n != list.last() {
                assert(front[i] == n);
                assert(front.contains(n));
                assert(parent_of(e[n as int]) == Some(p));
            }
            assert(e[n as int] is Document <==> d[n as int] is Document);
        }
    }
}

} // verus!
