//! Copying nodes.

use crate::dom::node::{adopted, child_nodes, children_of, closed_links, ends_within, finite_from,
    followed, fresh_element, lemma_same_links, links_ok, node_ok, relinked, relinked_all,
    reparent_subtree, reparented, same_but_parents, same_links, set_template_contents,
    template_contents, with_element, with_template, Dom, DomView, Node, NodePtr, NodeView, Reach};
use vstd::prelude::*;

verus! {

/// The arena after `n` has been copied, and the copy. A deep copy includes the
/// children and the template contents, not the shadow root.
pub open spec fn cloned(d: DomView, n: NodePtr, deep: bool, fuel: nat) -> (DomView, NodePtr)
    decreases fuel, 1nat, 0nat,
{
    match d[n as int] {
        NodeView::Text { content, parent } => (
            d.push(NodeView::Text { content, parent: None }),
            d.len() as NodePtr,
        ),
        NodeView::Comment { content, parent } => (
            d.push(NodeView::Comment { content, parent: None }),
            d.len() as NodePtr,
        ),
        NodeView::Element(el) => if deep {
            let (e, kids) = cloned_all(d, el.children, fuel);
            let copy = e.len() as NodePtr;
            let f = with_element(e, el.tag_name, el.attributes, kids);
            let g = match el.template_contents {
                Some(t) => if fuel == 0 {
                    f
                } else {
                    let (h, content) = cloned(f, t, true, (fuel - 1) as nat);
                    h.update(copy as int, with_template(h[copy as int], Some(content)))
                },
                None => f,
            };
            (relinked(g, copy, g.len()), copy)
        } else {
            (
                with_element(d, el.tag_name, el.attributes, Seq::empty()),
                d.len() as NodePtr,
            )
        },
        NodeView::Document { children, mode } => if deep {
            let (e, kids) = cloned_all(d, children, fuel);
            let copy = e.len() as NodePtr;
            let f = e.push(NodeView::Document { children: kids, mode });
            (relinked(f, copy, f.len()), copy)
        } else {
            (
                d.push(NodeView::Document { children: Seq::empty(), mode }),
                d.len() as NodePtr,
            )
        },
    }
}

/// The arena after the nodes of a list have been copied deeply, and the copies.
pub open spec fn cloned_all(d: DomView, kids: Seq<NodePtr>, fuel: nat) -> (DomView, Seq<NodePtr>)
    decreases fuel, 0nat, kids.len(),
{
    if kids.len() == 0 || fuel == 0 {
        (d, Seq::empty())
    } else {
        let (e, list) = cloned_all(d, kids.drop_last(), fuel);
        let (f, copy) = cloned(e, kids.last(), true, (fuel - 1) as nat);
        (f, list.push(copy))
    }
}

/// Whether `e` holds the nodes of `d`, unchanged, at the same places.
pub open spec fn extends(d: DomView, e: DomView) -> bool {
    &&& d.len() <= e.len()
    &&& forall|i: int| 0 <= i < d.len() ==> #[trigger] e[i] == d[i]
}

/// Whether the subtree of `n` lies among the nodes from `base` up to `top` and
/// ends within `fuel` levels.
pub open spec fn grows_in(d: DomView, n: NodePtr, base: nat, top: nat, fuel: nat) -> bool
    decreases fuel,
{
    &&& fuel > 0
    &&& base <= n < top <= d.len()
    &&& forall|i: int|
        0 <= i < followed(d[n as int], Reach::All).len() ==> grows_in(
            d,
            #[trigger] followed(d[n as int], Reach::All)[i],
            base,
            top,
            (fuel - 1) as nat,
        )
}

proof fn lemma_grows_ends(d: DomView, n: NodePtr, base: nat, top: nat, fuel: nat)
    requires
        grows_in(d, n, base, top, fuel),
    ensures
        ends_within(d, n, Reach::All, fuel),
    decreases fuel,
{
    let kids = followed(d[n as int], Reach::All);
    assert forall|i: int| 0 <= i < kids.len() implies ends_within(
        d,
        #[trigger] kids[i],
        Reach::All,
        (fuel - 1) as nat,
    ) by {
        lemma_grows_ends(d, kids[i], base, top, (fuel - 1) as nat);
    }
}

/// Whether the nodes from `base` up to `top` have the same links in both arenas.
spec fn same_links_in(d: DomView, e: DomView, base: nat, top: nat) -> bool {
    forall|i: int|
        base <= i < top ==> followed(#[trigger] d[i], Reach::All) == followed(e[i], Reach::All)
}

proof fn lemma_grows_same_links(
    d: DomView,
    e: DomView,
    n: NodePtr,
    base: nat,
    top: nat,
    lower: nat,
    upper: nat,
    fuel: nat,
)
    requires
        grows_in(d, n, base, top, fuel),
        same_links_in(d, e, base, top),
        lower <= base,
        top <= upper <= e.len(),
    ensures
        grows_in(e, n, lower, upper, fuel),
    decreases fuel,
{
    let kids = followed(e[n as int], Reach::All);
    assert(followed(d[n as int], Reach::All) == kids);
    assert forall|i: int| 0 <= i < kids.len() implies grows_in(
        e,
        #[trigger] kids[i],
        lower,
        upper,
        (fuel - 1) as nat,
    ) by {
        lemma_grows_same_links(d, e, kids[i], base, top, lower, upper, (fuel - 1) as nat);
    }
}

proof fn lemma_grows_more_fuel(d: DomView, n: NodePtr, base: nat, top: nat, f: nat, g: nat)
    requires
        grows_in(d, n, base, top, f),
        f <= g,
    ensures
        grows_in(d, n, base, top, g),
    decreases f,
{
    let kids = followed(d[n as int], Reach::All);
    assert forall|i: int| 0 <= i < kids.len() implies grows_in(
        d,
        #[trigger] kids[i],
        base,
        top,
        (g - 1) as nat,
    ) by {
        lemma_grows_more_fuel(d, kids[i], base, top, (f - 1) as nat, (g - 1) as nat);
    }
}

/// Adopting nodes behind the first `base` leaves those as they are.
proof fn lemma_adopted_frame(d: DomView, kids: Seq<NodePtr>, p: NodePtr, base: nat)
    requires
        forall|i: int| 0 <= i < kids.len() ==> base <= #[trigger] kids[i] < d.len(),
    ensures
        adopted(d, kids, p).len() == d.len(),
        forall|i: int| 0 <= i < base && i < d.len() ==> #[trigger] adopted(d, kids, p)[i] == d[i],
        same_but_parents(d, adopted(d, kids, p)),
    decreases kids.len(),
{
    if kids.len() > 0 {
        let front = kids.drop_last();
        assert forall|i: int| 0 <= i < front.len() implies base <= #[trigger] front[i]
            < d.len() by {
            assert(front[i] == kids[i]);
        }
        lemma_adopted_frame(d, front, p, base);
        assert(kids[kids.len() - 1] == kids.last());
        let e = adopted(d, front, p);
        let f = adopted(d, kids, p);
        assert forall|i: int| 0 <= i < d.len() implies #[trigger] f[i]
            == crate::dom::node::with_parent(d[i], crate::dom::node::parent_of(f[i])) by {
            assert(e[i] == crate::dom::node::with_parent(
                d[i],
                crate::dom::node::parent_of(e[i]),
            ));
        }
    }
}

proof fn lemma_same_but_parents_all(d: DomView, e: DomView)
    requires
        same_but_parents(d, e),
    ensures
        same_links(d, e, Reach::All),
{
    assert forall|i: int| 0 <= i < d.len() implies followed(#[trigger] d[i], Reach::All)
        == followed(e[i], Reach::All) by {
        assert(e[i] == crate::dom::node::with_parent(d[i], crate::dom::node::parent_of(e[i])));
    }
}

/// Relinking a subtree behind the first `base` nodes leaves those as they are.
proof fn lemma_relinked_frame(d: DomView, n: NodePtr, base: nat, top: nat, fuel: nat, room: nat)
    requires
        grows_in(d, n, base, top, fuel),
        fuel <= room,
    ensures
        same_but_parents(d, relinked(d, n, room)),
        forall|i: int| 0 <= i < base && i < d.len() ==> #[trigger] relinked(d, n, room)[i] == d[i],
    decreases fuel, 1nat, 0nat,
{
    lemma_relinked_all_frame(d, followed(d[n as int], Reach::All), n, base, top, fuel, room);
}

proof fn lemma_relinked_all_frame(
    d: DomView,
    kids: Seq<NodePtr>,
    n: NodePtr,
    base: nat,
    top: nat,
    fuel: nat,
    room: nat,
)
    requires
        0 < fuel <= room,
        forall|i: int|
            0 <= i < kids.len() ==> grows_in(d, #[trigger] kids[i], base, top, (fuel - 1) as nat),
    ensures
        same_but_parents(d, relinked_all(d, kids, n, room)),
        forall|i: int|
            0 <= i < base && i < d.len() ==> #[trigger] relinked_all(d, kids, n, room)[i] == d[i],
    decreases fuel, 0nat, kids.len(),
{
    if kids.len() > 0 {
        let front = kids.drop_last();
        let k = kids.last();
        assert forall|i: int| 0 <= i < front.len() implies grows_in(
            d,
            #[trigger] front[i],
            base,
            top,
            (fuel - 1) as nat,
        ) by {
            assert(front[i] == kids[i]);
        }
        lemma_relinked_all_frame(d, front, n, base, top, fuel, room);
        let e = relinked_all(d, front, n, room);
        let f = reparented(e, k, Some(n));
        assert(kids[kids.len() - 1] == k);
        assert(grows_in(d, k, base, top, (fuel - 1) as nat));
        assert(same_but_parents(d, f)) by {
            assert forall|i: int| 0 <= i < d.len() implies #[trigger] f[i]
                == crate::dom::node::with_parent(d[i], crate::dom::node::parent_of(f[i])) by {
                assert(e[i] == crate::dom::node::with_parent(
                    d[i],
                    crate::dom::node::parent_of(e[i]),
                ));
            }
        }
        lemma_same_but_parents_all(d, f);
        lemma_grows_same_links(d, f, k, base, top, base, top, (fuel - 1) as nat);
        lemma_relinked_frame(f, k, base, top, (fuel - 1) as nat, (room - 1) as nat);
        let g = relinked(f, k, (room - 1) as nat);
        assert(relinked_all(d, kids, n, room) == g);
        assert forall|i: int| 0 <= i < d.len() implies #[trigger] g[i]
            == crate::dom::node::with_parent(d[i], crate::dom::node::parent_of(g[i])) by {
            assert(g[i] == crate::dom::node::with_parent(f[i], crate::dom::node::parent_of(g[i])));
            assert(f[i] == crate::dom::node::with_parent(d[i], crate::dom::node::parent_of(f[i])));
        }
        assert forall|i: int| 0 <= i < base && i < d.len() implies #[trigger] g[i] == d[i] by {
            assert(g[i] == f[i]);
            assert(e[i] == d[i]);
        }
    }
}

/// Whether the subtree at `m` in `e` reads like the one at `n` in `d`: the same
/// kinds of nodes with the same names, attributes and texts, in the same
/// places, template contents included.
pub open spec fn alike(d: DomView, n: NodePtr, e: DomView, m: NodePtr, fuel: nat) -> bool
    decreases fuel,
{
    &&& fuel > 0
    &&& n < d.len()
    &&& m < e.len()
    &&& match (d[n as int], e[m as int]) {
        (
            NodeView::Text { content: a, parent: _ },
            NodeView::Text { content: b, parent: _ },
        ) => a == b,
        (
            NodeView::Comment { content: a, parent: _ },
            NodeView::Comment { content: b, parent: _ },
        ) => a == b,
        (
            NodeView::Document { children: _, mode: a },
            NodeView::Document { children: _, mode: b },
        ) => a == b,
        (NodeView::Element(a), NodeView::Element(b)) => {
            &&& a.tag_name == b.tag_name
            &&& a.attributes == b.attributes
            &&& a.template_contents is Some == b.template_contents is Some
            &&& a.template_contents is Some ==> alike(
                d,
                a.template_contents->0,
                e,
                b.template_contents->0,
                (fuel - 1) as nat,
            )
        },
        _ => false,
    }
    &&& children_of(d[n as int]).len() == children_of(e[m as int]).len()
    &&& forall|i: int|
        0 <= i < children_of(d[n as int]).len() ==> alike(
            d,
            #[trigger] children_of(d[n as int])[i],
            e,
            children_of(e[m as int])[i],
            (fuel - 1) as nat,
        )
}

/// Whether the nodes from `base` up to `top` differ in their parents at most.
spec fn agrees(e: DomView, f: DomView, base: nat, top: nat) -> bool {
    &&& top <= e.len()
    &&& top <= f.len()
    &&& forall|i: int|
        base <= i < top ==> #[trigger] f[i] == crate::dom::node::with_parent(
            e[i],
            crate::dom::node::parent_of(f[i]),
        )
}

proof fn lemma_alike_frame(
    d: DomView,
    n: NodePtr,
    e: DomView,
    m: NodePtr,
    f: DomView,
    base: nat,
    top: nat,
    fuel: nat,
    depth: nat,
)
    requires
        alike(d, n, e, m, fuel),
        grows_in(e, m, base, top, depth),
        agrees(e, f, base, top),
    ensures
        alike(d, n, f, m, fuel),
    decreases fuel,
{
    let kids = children_of(d[n as int]);
    let copies = children_of(e[m as int]);
    let all = followed(e[m as int], Reach::All);
    assert(f[m as int] == crate::dom::node::with_parent(
        e[m as int],
        crate::dom::node::parent_of(f[m as int]),
    ));
    assert(children_of(f[m as int]) == copies);
    assert forall|i: int| 0 <= i < kids.len() implies alike(
        d,
        #[trigger] kids[i],
        f,
        children_of(f[m as int])[i],
        (fuel - 1) as nat,
    ) by {
        assert(alike(d, kids[i], e, copies[i], (fuel - 1) as nat));
        assert(all[i] == copies[i]);
        assert(grows_in(e, all[i], base, top, (depth - 1) as nat));
        lemma_alike_frame(
            d,
            kids[i],
            e,
            copies[i],
            f,
            base,
            top,
            (fuel - 1) as nat,
            (depth - 1) as nat,
        );
    }
    if let (NodeView::Element(a), NodeView::Element(b)) = (d[n as int], e[m as int]) {
        if let (Some(t), Some(u)) = (a.template_contents, b.template_contents) {
            assert(all[copies.len() as int] == u);
            assert(grows_in(e, all[copies.len() as int], base, top, (depth - 1) as nat));
            lemma_alike_frame(d, t, e, u, f, base, top, (fuel - 1) as nat, (depth - 1) as nat);
        }
    }
}

proof fn lemma_alike_source(d: DomView, x: DomView, n: NodePtr, e: DomView, m: NodePtr, fuel: nat)
    requires
        alike(x, n, e, m, fuel),
        extends(d, x),
        ends_within(d, n, Reach::Inert, fuel),
    ensures
        alike(d, n, e, m, fuel),
    decreases fuel,
{
    let kids = children_of(d[n as int]);
    let inert = followed(d[n as int], Reach::Inert);
    assert(x[n as int] == d[n as int]);
    assert forall|i: int| 0 <= i < kids.len() implies alike(
        d,
        #[trigger] kids[i],
        e,
        children_of(e[m as int])[i],
        (fuel - 1) as nat,
    ) by {
        assert(alike(x, kids[i], e, children_of(e[m as int])[i], (fuel - 1) as nat));
        assert(inert[i] == kids[i]);
        assert(ends_within(d, inert[i], Reach::Inert, (fuel - 1) as nat));
        lemma_alike_source(d, x, kids[i], e, children_of(e[m as int])[i], (fuel - 1) as nat);
    }
    if let (NodeView::Element(a), NodeView::Element(b)) = (d[n as int], e[m as int]) {
        if let (Some(t), Some(u)) = (a.template_contents, b.template_contents) {
            assert(inert[kids.len() as int] == t);
            assert(ends_within(d, inert[kids.len() as int], Reach::Inert, (fuel - 1) as nat));
            lemma_alike_source(d, x, t, e, u, (fuel - 1) as nat);
        }
    }
}

/// Whether the nodes of two lists read alike, one by one.
spec fn all_alike(d: DomView, kids: Seq<NodePtr>, e: DomView, copies: Seq<NodePtr>, fuel: nat) -> bool {
    &&& kids.len() == copies.len()
    &&& forall|i: int| 0 <= i < kids.len() ==> alike(d, #[trigger] kids[i], e, copies[i], fuel)
}

proof fn lemma_all_alike_frame(
    d: DomView,
    kids: Seq<NodePtr>,
    e: DomView,
    copies: Seq<NodePtr>,
    f: DomView,
    base: nat,
    top: nat,
    fuel: nat,
)
    requires
        all_alike(d, kids, e, copies, fuel),
        all_grow_in(e, copies, base, top, fuel),
        agrees(e, f, base, top),
    ensures
        all_alike(d, kids, f, copies, fuel),
{
    assert forall|i: int| 0 <= i < kids.len() implies alike(
        d,
        #[trigger] kids[i],
        f,
        copies[i],
        fuel,
    ) by {
        assert(alike(d, kids[i], e, copies[i], fuel));
        assert(grows_in(e, copies[i], base, top, fuel));
        lemma_alike_frame(d, kids[i], e, copies[i], f, base, top, fuel, fuel);
    }
}

/// Copy `node`; with `deep`, its children and template contents too.
pub fn clone_node(dom: &mut Dom, node: NodePtr, deep: bool) -> (copy: NodePtr)
    requires
        old(dom).wf(),
        node < old(dom)@.len(),
        deep ==> finite_from(old(dom)@, node, Reach::Inert),
    ensures
        final(dom).wf(),
        (final(dom)@, copy) == cloned(old(dom)@, node, deep, old(dom)@.len()),
        extends(old(dom)@, final(dom)@),
        grows_in(final(dom)@, copy, old(dom)@.len(), final(dom)@.len(), old(dom)@.len()),
        deep ==> alike(old(dom)@, node, final(dom)@, copy, old(dom)@.len()),
{
    if deep {
        clone_deep(dom, node, Ghost(dom@.len()))
    } else {
        let ghost d = dom@;
        let copy: NodePtr = clone_shallow(dom, node);
        proof {
            assert(followed(dom@[copy as int], Reach::All).len() == 0);
        }
        copy
    }
}

/// Copy `node` without what it owns.
fn clone_shallow(dom: &mut Dom, node: NodePtr) -> (copy: NodePtr)
    requires
        old(dom).wf(),
        node < old(dom)@.len(),
    ensures
        final(dom).wf(),
        forall|fuel: nat| (final(dom)@, copy) == #[trigger] cloned(old(dom)@, node, false, fuel),
        extends(old(dom)@, final(dom)@),
        copy == old(dom)@.len(),
        final(dom)@.len() == copy + 1,
        followed(final(dom)@[copy as int], Reach::All) == Seq::<NodePtr>::empty(),
{
    match dom.node(node) {
        Node::Text(t) => {
            let content = t.content.clone();
            Node::text(dom, content.as_str())
        },
        Node::Comment(t) => {
            let content = t.content.clone();
            Node::comment(dom, content.as_str())
        },
        Node::Element(el) => {
            let tag = el.tag_name.clone();
            let attributes = el.attributes.clone();
            let copy: NodePtr = Node::element_with_attributes(
                dom,
                tag.as_str(),
                attributes,
                Vec::new(),
            );
            copy
        },
        Node::Document { mode, .. } => {
            let kept = *mode;
            Node::document_with_mode(dom, Vec::new(), kept)
        },
    }
}

/// Whether every node of a list roots a subtree among the nodes from `base` up
/// to `top`.
spec fn all_grow_in(d: DomView, list: Seq<NodePtr>, base: nat, top: nat, fuel: nat) -> bool {
    forall|i: int| 0 <= i < list.len() ==> grows_in(d, #[trigger] list[i], base, top, fuel)
}

proof fn lemma_extends_links(d: DomView, e: DomView, reach: Reach)
    requires
        extends(d, e),
    ensures
        same_links(d, e, reach),
{
}

proof fn lemma_all_grow(
    d: DomView,
    e: DomView,
    list: Seq<NodePtr>,
    base: nat,
    top: nat,
    upper: nat,
    fuel: nat,
)
    requires
        same_links_in(d, e, base, top),
        top <= upper <= e.len(),
        all_grow_in(d, list, base, top, fuel),
    ensures
        all_grow_in(e, list, base, upper, fuel),
{
    assert forall|i: int| 0 <= i < list.len() implies grows_in(
        e,
        #[trigger] list[i],
        base,
        upper,
        fuel,
    ) by {
        lemma_grows_same_links(d, e, list[i], base, top, base, upper, fuel);
    }
}

/// Copies the children of `node` deeply.
fn clone_children(dom: &mut Dom, node: NodePtr, Ghost(fuel): Ghost<nat>) -> (copies: Vec<NodePtr>)
    requires
        old(dom).wf(),
        node < old(dom)@.len(),
        fuel <= old(dom)@.len(),
        ends_within(old(dom)@, node, Reach::Inert, fuel),
    ensures
        final(dom).wf(),
        (final(dom)@, copies@) == cloned_all(
            old(dom)@,
            children_of(old(dom)@[node as int]),
            fuel,
        ),
        extends(old(dom)@, final(dom)@),
        all_grow_in(
            final(dom)@,
            copies@,
            old(dom)@.len(),
            final(dom)@.len(),
            (fuel - 1) as nat,
        ),
        links_ok(copies@, final(dom)@.len()),
        all_alike(
            old(dom)@,
            children_of(old(dom)@[node as int]),
            final(dom)@,
            copies@,
            (fuel - 1) as nat,
        ),
    decreases fuel, 0nat,
{
    let ghost d = dom@;
    let kids = child_nodes(dom, node);
    let mut copies: Vec<NodePtr> = Vec::new();
    let mut i: usize = 0;
    while i < kids.len()
        invariant
            i <= kids.len(),
            dom.wf(),
            d == old(dom)@,
            closed_links(d),
            node < d.len(),
            kids@ == children_of(d[node as int]),
            fuel <= d.len(),
            ends_within(d, node, Reach::Inert, fuel),
            extends(d, dom@),
            (dom@, copies@) == cloned_all(d, kids@.take(i as int), fuel),
            all_grow_in(dom@, copies@, d.len(), dom@.len(), (fuel - 1) as nat),
            links_ok(copies@, dom@.len()),
            all_alike(d, kids@.take(i as int), dom@, copies@, (fuel - 1) as nat),
        decreases kids.len() - i,
    {
        let kid: NodePtr = kids[i];
        let ghost mid = dom@;
        let ghost so_far = copies@;
        proof {
            let next = kids@.take(i + 1);
            assert(next.drop_last() == kids@.take(i as int));
            assert(next.last() == kid);
            assert(followed(d[node as int], Reach::Inert)[i as int] == kid);
            assert(ends_within(d, kid, Reach::Inert, (fuel - 1) as nat));
            lemma_extends_links(d, mid, Reach::Inert);
            lemma_same_links(d, mid, kid, Reach::Inert, (fuel - 1) as nat);
        }
        let copy: NodePtr = clone_deep(dom, kid, Ghost((fuel - 1) as nat));
        copies.push(copy);
        proof {
            assert(agrees(mid, dom@, d.len(), mid.len()));
            lemma_all_alike_frame(
                d,
                kids@.take(i as int),
                mid,
                so_far,
                dom@,
                d.len(),
                mid.len(),
                (fuel - 1) as nat,
            );
            lemma_alike_source(d, mid, kid, dom@, copy, (fuel - 1) as nat);
            assert forall|j: int| 0 <= j < i + 1 implies alike(
                d,
                #[trigger] kids@.take(i + 1)[j],
                dom@,
                copies@[j],
                (fuel - 1) as nat,
            ) by {
                if j < i {
                    assert(alike(
                        d,
                        kids@.take(i as int)[j],
                        dom@,
                        so_far[j],
                        (fuel - 1) as nat,
                    ));
                }
            }
            lemma_all_grow(
                mid,
                dom@,
                so_far,
                d.len(),
                mid.len(),
                dom@.len(),
                (fuel - 1) as nat,
            );
            lemma_grows_same_links(
                dom@,
                dom@,
                copy,
                mid.len(),
                dom@.len(),
                d.len(),
                dom@.len(),
                (fuel - 1) as nat,
            );
            assert forall|j: int| 0 <= j < copies@.len() implies grows_in(
                dom@,
                #[trigger] copies@[j],
                d.len(),
                dom@.len(),
                (fuel - 1) as nat,
            ) by {
                if j < so_far.len() {
                    assert(copies@[j] == so_far[j]);
                }
            }
            assert forall|j: int| 0 <= j < copies@.len() implies #[trigger] copies@[j]
                < dom@.len() by {
                assert(grows_in(dom@, copies@[j], d.len(), dom@.len(), (fuel - 1) as nat));
            }
        }
        i = i + 1;
    }
    assert(kids@.take(i as int) == kids@);
    copies
}

fn clone_deep(dom: &mut Dom, node: NodePtr, Ghost(fuel): Ghost<nat>) -> (copy: NodePtr)
    requires
        old(dom).wf(),
        fuel <= old(dom)@.len(),
        ends_within(old(dom)@, node, Reach::Inert, fuel),
    ensures
        final(dom).wf(),
        (final(dom)@, copy) == cloned(old(dom)@, node, true, fuel),
        extends(old(dom)@, final(dom)@),
        grows_in(final(dom)@, copy, old(dom)@.len(), final(dom)@.len(), fuel),
        alike(old(dom)@, node, final(dom)@, copy, fuel),
    decreases fuel, 1nat,
{
    let ghost d = dom@;
    match dom.node(node) {
        Node::Text(_) => {
            let copy: NodePtr = clone_shallow(dom, node);
            proof {
                assert((dom@, copy) == cloned(d, node, false, fuel));
            }
            copy
        },
        Node::Comment(_) => {
            let copy: NodePtr = clone_shallow(dom, node);
            proof {
                assert((dom@, copy) == cloned(d, node, false, fuel));
            }
            copy
        },
        Node::Element(el) => {
            let tag = el.tag_name.clone();
            let attributes = el.attributes.clone();
            let content = el.template_contents;
            let ghost view = el@;
            proof {
                assert(node_ok(d[node as int], d.len()));
            }
            let copies = clone_children(dom, node, Ghost(fuel));
            let ghost e = dom@;
            let ghost list = copies@;
            let copy: NodePtr = Node::element_with_attributes(
                dom,
                tag.as_str(),
                attributes,
                copies,
            );
            let ghost f = dom@;
            proof {
                lemma_element_grows(d, e, f, list, view.tag_name, view.attributes, fuel);
                lemma_all_alike_frame(
                    d,
                    view.children,
                    e,
                    list,
                    f,
                    d.len(),
                    e.len(),
                    (fuel - 1) as nat,
                );
            }
            if let Some(t) = content {
                proof {
                    let inert = followed(d[node as int], Reach::Inert);
                    assert(inert == view.children + seq![t]);
                    assert(inert[inert.len() - 1] == t);
                    assert(ends_within(d, t, Reach::Inert, (fuel - 1) as nat));
                    lemma_extends_links(d, f, Reach::Inert);
                    lemma_same_links(d, f, t, Reach::Inert, (fuel - 1) as nat);
                }
                let inner: NodePtr = clone_deep(dom, t, Ghost((fuel - 1) as nat));
                let ghost h = dom@;
                set_template_contents(dom, copy, Some(inner));
                proof {
                    lemma_template_grows(d, e, f, h, copy, inner, list, fuel);
                    lemma_alike_source(d, f, t, h, inner, (fuel - 1) as nat);
                    assert(agrees(h, dom@, f.len(), h.len()));
                    lemma_alike_frame(
                        d,
                        t,
                        h,
                        inner,
                        dom@,
                        f.len(),
                        h.len(),
                        (fuel - 1) as nat,
                        (fuel - 1) as nat,
                    );
                    assert(agrees(f, dom@, d.len(), e.len()));
                    lemma_all_alike_frame(
                        d,
                        view.children,
                        f,
                        list,
                        dom@,
                        d.len(),
                        e.len(),
                        (fuel - 1) as nat,
                    );
                }
            }
            let ghost g = dom@;
            assert(alike(d, node, g, copy, fuel)) by {
                assert(all_alike(d, view.children, g, list, (fuel - 1) as nat));
                assert forall|i: int| 0 <= i < children_of(d[node as int]).len() implies alike(
                    d,
                    #[trigger] children_of(d[node as int])[i],
                    g,
                    children_of(g[copy as int])[i],
                    (fuel - 1) as nat,
                ) by {
                    assert(view.children[i] == children_of(d[node as int])[i]);
                }
            }
            proof {
                lemma_grows_more_fuel(g, copy, d.len(), g.len(), fuel, g.len());
                lemma_grows_ends(g, copy, d.len(), g.len(), g.len());
                lemma_relinked_frame(g, copy, d.len(), g.len(), fuel, g.len());
            }
            reparent_subtree(dom, copy);
            proof {
                lemma_same_but_parents_all(g, dom@);
                assert(agrees(g, dom@, d.len(), g.len()));
                lemma_alike_frame(d, node, g, copy, dom@, d.len(), g.len(), fuel, fuel);
                lemma_grows_same_links(
                    g,
                    dom@,
                    copy,
                    d.len(),
                    g.len(),
                    d.len(),
                    g.len(),
                    fuel,
                );
                assert(extends(d, dom@));
            }
            copy
        },
        Node::Document { mode, .. } => {
            let kept = *mode;
            let copies = clone_children(dom, node, Ghost(fuel));
            let ghost e = dom@;
            let ghost list = copies@;
            let copy: NodePtr = Node::document_with_mode(dom, copies, kept);
            let ghost g = dom@;
            let ghost kids = children_of(d[node as int]);
            proof {
                assert(agrees(e, g, d.len(), e.len()));
                lemma_all_alike_frame(d, kids, e, list, g, d.len(), e.len(), (fuel - 1) as nat);
                assert(alike(d, node, g, copy, fuel)) by {
                    assert forall|i: int| 0 <= i < kids.len() implies alike(
                        d,
                        #[trigger] children_of(d[node as int])[i],
                        g,
                        children_of(g[copy as int])[i],
                        (fuel - 1) as nat,
                    ) by {
                        assert(kids[i] == children_of(d[node as int])[i]);
                    }
                }
                lemma_all_grow(e, g, list, d.len(), e.len(), g.len(), (fuel - 1) as nat);
                assert(followed(g[copy as int], Reach::All) =~= list);
                assert(grows_in(g, copy, d.len(), g.len(), fuel));
                lemma_grows_more_fuel(g, copy, d.len(), g.len(), fuel, g.len());
                lemma_grows_ends(g, copy, d.len(), g.len(), g.len());
                lemma_relinked_frame(g, copy, d.len(), g.len(), fuel, g.len());
            }
            reparent_subtree(dom, copy);
            proof {
                lemma_same_but_parents_all(g, dom@);
                assert(agrees(g, dom@, d.len(), g.len()));
                lemma_alike_frame(d, node, g, copy, dom@, d.len(), g.len(), fuel, fuel);
                lemma_grows_same_links(
                    g,
                    dom@,
                    copy,
                    d.len(),
                    g.len(),
                    d.len(),
                    g.len(),
                    fuel,
                );
                assert(extends(d, dom@));
            }
            copy
        },
    }
}

/// A fresh element over fresh children is a fresh subtree.
proof fn lemma_element_grows(
    d: DomView,
    e: DomView,
    f: DomView,
    list: Seq<NodePtr>,
    tag: Seq<char>,
    attributes: Map<Seq<char>, Seq<char>>,
    fuel: nat,
)
    requires
        fuel > 0,
        extends(d, e),
        e.len() <= usize::MAX,
        all_grow_in(e, list, d.len(), e.len(), (fuel - 1) as nat),
        f == with_element(e, tag, attributes, list),
    ensures
        extends(d, f),
        f.len() == e.len() + 1,
        all_grow_in(f, list, d.len(), e.len(), (fuel - 1) as nat),
        grows_in(f, e.len() as NodePtr, d.len(), f.len(), fuel),
        f[e.len() as int] == fresh_element(tag, attributes, list),
        agrees(e, f, d.len(), e.len()),
{
    let copy = e.len() as NodePtr;
    let m = e.push(fresh_element(tag, attributes, list));
    assert forall|i: int| 0 <= i < list.len() implies d.len() <= #[trigger] list[i] < m.len()
        && list[i] != copy by {
        assert(grows_in(e, list[i], d.len(), e.len(), (fuel - 1) as nat));
    }
    lemma_adopted_frame(m, list, copy, d.len());
    lemma_same_but_parents_all(m, f);
    assert forall|i: int| d.len() <= i < e.len() implies #[trigger] f[i]
        == crate::dom::node::with_parent(e[i], crate::dom::node::parent_of(f[i])) by {
        assert(m[i] == e[i]);
    }
    lemma_all_grow(e, m, list, d.len(), e.len(), e.len(), (fuel - 1) as nat);
    lemma_all_grow(m, f, list, d.len(), e.len(), e.len(), (fuel - 1) as nat);
    lemma_all_grow(f, f, list, d.len(), e.len(), f.len(), (fuel - 1) as nat);
    lemma_adopted_other(m, list, copy, copy);
    assert(followed(f[copy as int], Reach::All) =~= list);
}

/// Adoption leaves a node that is not in the list as it is.
proof fn lemma_adopted_other(d: DomView, kids: Seq<NodePtr>, p: NodePtr, x: NodePtr)
    requires
        x < d.len(),
        forall|i: int| 0 <= i < kids.len() ==> #[trigger] kids[i] < d.len() && kids[i] != x,
    ensures
        adopted(d, kids, p).len() == d.len(),
        adopted(d, kids, p)[x as int] == d[x as int],
    decreases kids.len(),
{
    if kids.len() > 0 {
        let front = kids.drop_last();
        assert forall|i: int| 0 <= i < front.len() implies #[trigger] front[i] < d.len()
            && front[i] != x by {
            assert(front[i] == kids[i]);
        }
        lemma_adopted_other(d, front, p, x);
        assert(kids[kids.len() - 1] != x);
    }
}

/// A fresh element with fresh template contents is a fresh subtree.
proof fn lemma_template_grows(
    d: DomView,
    e: DomView,
    f: DomView,
    h: DomView,
    copy: NodePtr,
    inner: NodePtr,
    list: Seq<NodePtr>,
    fuel: nat,
)
    requires
        fuel > 0,
        d.len() <= e.len(),
        copy == e.len(),
        f.len() == e.len() + 1,
        extends(f, h),
        all_grow_in(f, list, d.len(), e.len(), (fuel - 1) as nat),
        f[copy as int] matches NodeView::Element(el) && el.children == list && el.shadow_root
            is None,
        grows_in(h, inner, f.len(), h.len(), (fuel - 1) as nat),
    ensures
        grows_in(
            h.update(copy as int, with_template(h[copy as int], Some(inner))),
            copy,
            d.len(),
            h.len(),
            fuel,
        ),
{
    let g = h.update(copy as int, with_template(h[copy as int], Some(inner)));
    let kids = followed(g[copy as int], Reach::All);
    assert(kids =~= list + seq![inner]);
    assert forall|i: int| 0 <= i < kids.len() implies grows_in(
        g,
        #[trigger] kids[i],
        d.len(),
        g.len(),
        (fuel - 1) as nat,
    ) by {
        if i < list.len() {
            assert(kids[i] == list[i]);
            lemma_grows_same_links(
                f,
                g,
                list[i],
                d.len(),
                e.len(),
                d.len(),
                g.len(),
                (fuel - 1) as nat,
            );
        } else {
            assert(kids[i] == inner);
            lemma_grows_same_links(
                h,
                g,
                inner,
                f.len(),
                h.len(),
                d.len(),
                g.len(),
                (fuel - 1) as nat,
            );
        }
    }
}

} // verus!
