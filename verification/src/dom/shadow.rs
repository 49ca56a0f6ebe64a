//! Shadow trees.
//!
//! A shadow root is a `#document-fragment` whose parent is its host and that
//! the host records as its `shadow_root`; it is not in the host's child list.
//! [`ShadowTreeBackend`] isolates that representation from its users.

use crate::dom::node::{assigned_of, attribute, attribute_of, child_nodes, children_of, clear_parent,
    closed_links, copy_list, ends_within, finite_from, followed, fresh_element, has_tag,
    is_document_fragment, is_fragment, links_ok, node_has_tag, node_ok, parent_of, parent_ptr,
    push_assigned_node, rechilded, relinked, reparent_subtree, reparented, set_assigned_nodes,
    set_children, set_parent, set_shadow_root, shadow_root, shadow_root_of, with_assigned,
    with_shadow_root, Dom, DomView, Node, NodePtr, NodeView, Reach};
use crate::dom::routes::{arrival, gathered, gathered_all, lemma_gathered_lists_all,
    lemma_listed_from, lemma_listed_has, lemma_routes_end, lists_all, Below};
use vstd::prelude::*;

verus! {

/// Whether `n` is a shadow root: a fragment that its parent records as such.
pub open spec fn is_root_at(d: DomView, n: NodePtr) -> bool {
    is_fragment(d[n as int]) && (parent_of(d[n as int]) matches Some(p) && shadow_root_of(
        d[p as int],
    ) == Some(n))
}

/// Whether a walk up from `n` meets a shadow root or a node without parent
/// within `fuel` nodes.
pub open spec fn climb_ends(d: DomView, n: NodePtr, fuel: nat) -> bool
    decreases fuel,
{
    &&& fuel > 0
    &&& n < d.len()
    &&& (is_root_at(d, n) || (parent_of(d[n as int]) matches Some(p) ==> climb_ends(
        d,
        p,
        (fuel - 1) as nat,
    )))
}

/// The nearest shadow root at or above `n`.
pub open spec fn nearest_root(d: DomView, n: NodePtr, fuel: nat) -> Option<NodePtr>
    decreases fuel,
{
    if fuel == 0 {
        None
    } else if is_root_at(d, n) {
        Some(n)
    } else {
        match parent_of(d[n as int]) {
            Some(p) => nearest_root(d, p, (fuel - 1) as nat),
            None => None,
        }
    }
}

/// Whether a node is a `<slot>`.
pub open spec fn is_slot(n: NodeView) -> bool {
    has_tag(n, "slot"@)
}

/// Whether the composed children of a node come from its child list: it hosts
/// no shadow tree and is no slot that nodes were assigned to.
pub open spec fn composes_children(n: NodeView) -> bool {
    is_container_view(n) && shadow_root_of(n) is None && !(is_slot(n) && assigned_of(n).len() > 0)
}

/// Whether a node has a child list.
pub open spec fn is_container_view(n: NodeView) -> bool {
    n is Document || n is Element
}

/// Whether slots nested directly in slots below `n` end within `fuel` levels.
pub open spec fn slots_end(d: DomView, n: NodePtr, fuel: nat) -> bool
    decreases fuel,
{
    &&& fuel > 0
    &&& n < d.len()
    &&& composes_children(d[n as int]) ==> forall|i: int|
        0 <= i < children_of(d[n as int]).len() && is_slot(
            d[children_of(d[n as int])[i] as int],
        ) ==> slots_end(d, #[trigger] children_of(d[n as int])[i], (fuel - 1) as nat)
}

/// The children of `n` in the composed tree: the shadow root alone for a host,
/// the assigned nodes for a slot that has any, and otherwise the children with
/// every slot among them replaced by its own composed children.
pub open spec fn composed(d: DomView, n: NodePtr, fuel: nat) -> Seq<NodePtr>
    decreases fuel, 1nat, 0nat,
{
    match d[n as int] {
        NodeView::Element(el) => match el.shadow_root {
            Some(root) => seq![root],
            None => if is_slot(d[n as int]) && el.assigned_nodes.len() > 0 {
                el.assigned_nodes
            } else {
                flattened(d, el.children, fuel)
            },
        },
        NodeView::Document { children, mode } => flattened(d, children, fuel),
        _ => Seq::empty(),
    }
}

/// A child list with every slot replaced by its composed children.
pub open spec fn flattened(d: DomView, kids: Seq<NodePtr>, fuel: nat) -> Seq<NodePtr>
    decreases fuel, 0nat, kids.len(),
{
    if kids.len() == 0 || fuel == 0 {
        Seq::empty()
    } else {
        flattened(d, kids.drop_last(), fuel) + (if is_slot(d[kids.last() as int]) {
            composed(d, kids.last(), (fuel - 1) as nat)
        } else {
            seq![kids.last()]
        })
    }
}

/// The slots at and below `n`, in tree order.
pub open spec fn slots_in(d: DomView, n: NodePtr, fuel: nat) -> Seq<NodePtr>
    decreases fuel, 1nat, 0nat,
{
    match d[n as int] {
        NodeView::Element(el) => (if is_slot(d[n as int]) {
            seq![n]
        } else {
            Seq::empty()
        }) + slots_among(d, el.children, fuel),
        _ => Seq::empty(),
    }
}

/// The slots at and below the nodes of a list.
pub open spec fn slots_among(d: DomView, kids: Seq<NodePtr>, fuel: nat) -> Seq<NodePtr>
    decreases fuel, 0nat, kids.len(),
{
    if kids.len() == 0 || fuel == 0 {
        Seq::empty()
    } else {
        slots_among(d, kids.drop_last(), fuel) + slots_in(d, kids.last(), (fuel - 1) as nat)
    }
}

/// An attribute value, empty where the attribute is absent.
pub open spec fn value_or_empty(n: NodeView, name: Seq<char>) -> Seq<char> {
    match attribute_of(n, name) {
        Some(v) => v,
        None => Seq::empty(),
    }
}

/// Whether `slot` takes the light node `child`: the slot's `name` is the
/// child's `slot`, each empty by default.
pub open spec fn slot_takes(d: DomView, slot: NodePtr, child: NodePtr) -> bool {
    value_or_empty(d[slot as int], "name"@) == value_or_empty(d[child as int], "slot"@)
}

/// Whether `slot` is the first of `slots` that takes `child`.
pub open spec fn goes_to(d: DomView, slots: Seq<NodePtr>, child: NodePtr, slot: NodePtr) -> bool {
    exists|i: int|
        0 <= i < slots.len() && #[trigger] slots[i] == slot && slot_takes(d, slot, child)
            && forall|j: int| 0 <= j < i ==> !slot_takes(d, #[trigger] slots[j], child)
}

/// The light nodes that go to `slot`, in order.
pub open spec fn assigned_to(
    d: DomView,
    slots: Seq<NodePtr>,
    light: Seq<NodePtr>,
    slot: NodePtr,
) -> Seq<NodePtr> {
    light.filter(|c: NodePtr| goes_to(d, slots, c, slot))
}

/// The arena after the nodes of `light` have been distributed over `slots`, as
/// far as it shows in the nodes of `touched`.
pub open spec fn spread_over(
    d: DomView,
    touched: Seq<NodePtr>,
    slots: Seq<NodePtr>,
    light: Seq<NodePtr>,
) -> DomView {
    Seq::new(
        d.len(),
        |i: int|
            if touched.contains(i as NodePtr) {
                with_assigned(d[i], assigned_to(d, slots, light, i as NodePtr))
            } else {
                d[i]
            },
    )
}

/// The arena after the light children of `host` have been distributed over the
/// slots of its shadow tree.
pub open spec fn distributed(d: DomView, host: NodePtr) -> DomView {
    match shadow_root_of(d[host as int]) {
        Some(root) => {
            let slots = slots_in(d, root, d.len());
            spread_over(d, slots, slots, children_of(d[host as int]))
        },
        None => d,
    }
}

/// The shadow root that attaching to `host` yields.
pub open spec fn attached_root(d: DomView, host: NodePtr) -> NodePtr {
    match shadow_root_of(d[host as int]) {
        Some(root) => root,
        None => d.len() as NodePtr,
    }
}

/// The arena after a shadow root has been attached to `host`.
pub open spec fn attached(d: DomView, host: NodePtr) -> DomView {
    match shadow_root_of(d[host as int]) {
        Some(root) => reparented(d, root, Some(host)),
        None => {
            let root = d.len() as NodePtr;
            let e = d.push(fresh_element("#document-fragment"@, Map::empty(), Seq::empty()));
            reparented(
                e.update(host as int, with_shadow_root(e[host as int], Some(root))),
                root,
                Some(host),
            )
        },
    }
}

/// A pointer list without `x`.
pub open spec fn without(s: Seq<NodePtr>, x: NodePtr) -> Seq<NodePtr> {
    s.filter(|y: NodePtr| y != x)
}

/// The arena after a fragment has left the child list of an element that is
/// its parent but not its future host.
pub open spec fn released(d: DomView, host: NodePtr, root: NodePtr) -> DomView {
    match parent_of(d[root as int]) {
        Some(p) => if p != host && d[p as int] is Element {
            rechilded(d, p, without(children_of(d[p as int]), root))
        } else {
            d
        },
        None => d,
    }
}

/// The arena after the element `host` has recorded `root` as its shadow root
/// and both roots, the new and the previous one, have been pointed accordingly.
pub open spec fn rehosted(d: DomView, host: NodePtr, root: NodePtr) -> DomView {
    let e = released(d, host, root);
    let f = e.update(host as int, with_shadow_root(e[host as int], Some(root)));
    let g = match shadow_root_of(e[host as int]) {
        Some(previous) => if previous != root {
            reparented(f, previous, None)
        } else {
            f
        },
        None => f,
    };
    reparented(g, root, Some(host))
}

/// The arena after `root` has become the shadow root of the element `host`,
/// with the parents of its whole subtree re-established.
pub open spec fn adopted_root(d: DomView, host: NodePtr, root: NodePtr) -> DomView {
    relinked(rehosted(d, host, root), root, d.len())
}

/// `list` without `x`.
pub fn list_without(list: &Vec<NodePtr>, x: NodePtr) -> (res: Vec<NodePtr>)
    ensures
        res@ == without(list@, x),
{
    let mut res: Vec<NodePtr> = Vec::new();
    let mut i: usize = 0;
    proof {
        reveal(Seq::filter);
    }
    while i < list.len()
        invariant
            i <= list.len(),
            res@ == without(list@.take(i as int), x),
        decreases list.len() - i,
    {
        proof {
            reveal(Seq::filter);
            assert(list@.take(i + 1).drop_last() == list@.take(i as int));
        }
        if list[i] != x {
            res.push(list[i]);
        }
        i = i + 1;
    }
    assert(list@.take(i as int) == list@);
    res
}

/// Pointers that survive the removal of one are still good.
pub proof fn lemma_without(s: Seq<NodePtr>, x: NodePtr)
    ensures
        without(s, x).len() <= s.len(),
        forall|len: nat| links_ok(s, len) ==> #[trigger] links_ok(without(s, x), len),
        !without(s, x).contains(x),
        forall|y: NodePtr| y != x ==> (#[trigger] without(s, x).contains(y) <==> s.contains(y)),
    decreases s.len(),
{
    reveal(Seq::filter);
    let r = without(s, x);
    if s.len() > 0 {
        let t = s.drop_last();
        let q = without(t, x);
        lemma_without(t, x);
        assert(s == t.push(s.last()));
        assert(r == if s.last() != x {
            q.push(s.last())
        } else {
            q
        });
        assert forall|len: nat| links_ok(s, len) implies #[trigger] links_ok(r, len) by {
            assert forall|i: int| 0 <= i < t.len() implies #[trigger] t[i] < len by {
                assert(s[i] < len);
            }
            assert(links_ok(q, len));
            assert(s[s.len() - 1] < len);
        }
        assert forall|y: NodePtr| y != x implies (#[trigger] r.contains(y) <==> s.contains(y)) by {
            if r.contains(y) {
                let i = choose|i: int| 0 <= i < r.len() && r[i] == y;
                if i < q.len() {
                    assert(q[i] == y);
                    assert(q.contains(y));
                    let j = choose|j: int| 0 <= j < t.len() && t[j] == y;
                    assert(s[j] == y);
                } else {
                    assert(s[s.len() - 1] == y);
                }
            }
            if s.contains(y) {
                let i = choose|i: int| 0 <= i < s.len() && s[i] == y;
                if i < t.len() {
                    assert(t[i] == y);
                    assert(t.contains(y));
                    assert(q.contains(y));
                    let j = choose|j: int| 0 <= j < q.len() && q[j] == y;
                    assert(r[j] == y);
                } else {
                    assert(r[r.len() - 1] == y);
                }
            }
        }
        if r.contains(x) {
            let i = choose|i: int| 0 <= i < r.len() && r[i] == x;
            if i < q.len() {
                assert(q[i] == x);
                assert(q.contains(x));
            }
        }
    }
}

/// Strategy for representing shadow trees in the document tree.
pub trait ShadowTreeBackend {
    /// Attach a shadow root to `host`, returning the shadow root fragment. A
    /// host that already has a shadow root keeps it.
    fn attach_shadow(&self, dom: &mut Dom, host: NodePtr, mode: &str) -> (root: NodePtr)
        requires
            old(dom).wf(),
            host < old(dom)@.len(),
        ensures
            final(dom).wf(),
            final(dom)@ == attached(old(dom)@, host),
            root == attached_root(old(dom)@, host),
    ;

    /// Adopt an existing document fragment as `host`'s shadow root. `false`
    /// when `root` is no fragment or `host` no element.
    fn adopt_shadow_root(&self, dom: &mut Dom, host: NodePtr, root: NodePtr) -> (res: bool)
        requires
            old(dom).wf(),
            host < old(dom)@.len(),
            root < old(dom)@.len(),
            is_fragment(old(dom)@[root as int]) && old(dom)@[host as int] is Element
                ==> finite_from(rehosted(old(dom)@, host, root), root, Reach::All),
        ensures
            final(dom).wf(),
            res == (is_fragment(old(dom)@[root as int]) && old(dom)@[host as int] is Element),
            res ==> final(dom)@ == adopted_root(old(dom)@, host, root),
            !res ==> final(dom)@ == (if is_fragment(old(dom)@[root as int]) {
                released(old(dom)@, host, root)
            } else {
                old(dom)@
            }),
    ;

    /// Append `child` to `root`'s children.
    fn append_shadow_child(&self, dom: &mut Dom, root: NodePtr, child: NodePtr)
        requires
            old(dom).wf(),
            root < old(dom)@.len(),
            child < old(dom)@.len(),
        ensures
            final(dom).wf(),
            final(dom)@ == reparented(
                if old(dom)@[root as int] is Element {
                    rechilded(
                        old(dom)@,
                        root,
                        children_of(old(dom)@[root as int]).push(child),
                    )
                } else {
                    old(dom)@
                },
                child,
                Some(root),
            ),
    ;

    /// The children of `node` in the composed tree.
    fn composed_children(&self, dom: &Dom, node: NodePtr) -> (res: Vec<NodePtr>)
        requires
            dom.wf(),
            node < dom@.len(),
            slots_end(dom@, node, dom@.len()),
        ensures
            res@ == composed(dom@, node, dom@.len()),
            links_ok(res@, dom@.len()),
    ;

    /// Distribute the light children of `host` over its shadow tree's slots.
    fn distribute_slots(&self, dom: &mut Dom, host: NodePtr)
        requires
            old(dom).wf(),
            host < old(dom)@.len(),
            shadow_root_of(old(dom)@[host as int]) matches Some(root) ==> finite_from(
                old(dom)@,
                root,
                Reach::ElementChildren,
            ),
        ensures
            final(dom).wf(),
            final(dom)@ == distributed(old(dom)@, host),
    ;

    /// The light nodes assigned to `slot`.
    fn assigned_nodes(&self, dom: &Dom, slot: NodePtr) -> (res: Vec<NodePtr>)
        requires
            slot < dom@.len(),
        ensures
            res@ == assigned_of(dom@[slot as int]),
    ;

    /// The host that owns `root`, if `root` is a shadow root.
    fn host_for_shadow_root(&self, dom: &Dom, root: NodePtr) -> (res: Option<NodePtr>)
        requires
            dom.wf(),
            root < dom@.len(),
        ensures
            res == (if is_root_at(dom@, root) {
                parent_of(dom@[root as int])
            } else {
                None
            }),
    ;

    /// Whether `node` is itself a shadow root.
    fn is_shadow_root(&self, dom: &Dom, node: NodePtr) -> (res: bool)
        requires
            dom.wf(),
            node < dom@.len(),
        ensures
            res == is_root_at(dom@, node),
    ;

    /// The nearest shadow root at or above `node`.
    fn nearest_shadow_root(&self, dom: &Dom, node: NodePtr) -> (res: Option<NodePtr>)
        requires
            dom.wf(),
            climb_ends(dom@, node, dom@.len()),
        ensures
            res == nearest_root(dom@, node, dom@.len()),
    ;

    /// Whether `node` sits inside, or is, a shadow tree's root.
    fn is_in_shadow_tree(&self, dom: &Dom, node: NodePtr) -> (res: bool)
        requires
            dom.wf(),
            climb_ends(dom@, node, dom@.len()),
        ensures
            res == nearest_root(dom@, node, dom@.len()) is Some,
    {
        self.nearest_shadow_root(dom, node).is_some()
    }
}

/// Shadow roots as `#document-fragment` nodes parented under their hosts.
#[derive(Debug, Clone, Copy, Default)]
pub struct SyntheticShadowTreeBackend;

/// Appends the slots at and below `root`.
pub(crate) fn find_slots(dom: &Dom, root: NodePtr, out: &mut Vec<NodePtr>, Ghost(fuel): Ghost<nat>)
    requires
        dom.wf(),
        ends_within(dom@, root, Reach::ElementChildren, fuel),
    ensures
        final(out)@ == old(out)@ + slots_in(dom@, root, fuel),
    decreases fuel,
{
    match dom.node(root) {
        Node::Element(el) => {
            if node_has_tag(dom, root, "slot") {
                out.push(root);
            }
            let ghost base = out@;
            let mut i: usize = 0;
            while i < el.children.len()
                invariant
                    i <= el.children.len(),
                    dom.wf(),
                    root < dom@.len(),
                    NodeView::Element(el@) == dom@[root as int],
                    ends_within(dom@, root, Reach::ElementChildren, fuel),
                    out@ == base + slots_among(dom@, el.children@.take(i as int), fuel),
                decreases el.children.len() - i,
            {
                proof {
                    let next = el.children@.take(i + 1);
                    assert(next.drop_last() == el.children@.take(i as int));
                    assert(next.last() == el.children@[i as int]);
                    assert(followed(dom@[root as int], Reach::ElementChildren)[i as int]
                        == el.children@[i as int]);
                }
                let ghost mid = out@;
                find_slots(dom, el.children[i], out, Ghost((fuel - 1) as nat));
                proof {
                    let a = slots_among(dom@, el.children@.take(i as int), fuel);
                    let b = slots_in(dom@, el.children@[i as int], (fuel - 1) as nat);
                    assert((base + a) + b == base + (a + b));
                }
                i = i + 1;
            }
            proof {
                assert(el.children@.take(i as int) == el.children@);
                let own = if is_slot(dom@[root as int]) {
                    seq![root]
                } else {
                    Seq::empty()
                };
                assert(base == old(out)@ + own);
                assert((old(out)@ + own) + slots_among(dom@, el.children@, fuel) == old(out)@ + (own
                    + slots_among(dom@, el.children@, fuel)));
            }
        },
        _ => {
            assert(out@ == old(out)@ + slots_in(dom@, root, fuel));
        },
    }
}

fn composed_within(dom: &Dom, node: NodePtr, Ghost(fuel): Ghost<nat>) -> (res: Vec<NodePtr>)
    requires
        dom.wf(),
        slots_end(dom@, node, fuel),
    ensures
        res@ == composed(dom@, node, fuel),
        links_ok(res@, dom@.len()),
    decreases fuel, 1nat,
{
    proof {
        assert(node_ok(dom@[node as int], dom@.len()));
    }
    match dom.node(node) {
        Node::Element(el) => {
            if let Some(root) = el.shadow_root {
                let mut res: Vec<NodePtr> = Vec::new();
                res.push(root);
                assert(res@ == seq![root]);
                return res;
            }
            if node_has_tag(dom, node, "slot") && el.assigned_nodes.len() > 0 {
                return copy_list(&el.assigned_nodes);
            }
            flatten_within(dom, node, &el.children, Ghost(fuel))
        },
        Node::Document { children, .. } => flatten_within(dom, node, children, Ghost(fuel)),
        _ => Vec::new(),
    }
}

fn flatten_within(dom: &Dom, node: NodePtr, kids: &Vec<NodePtr>, Ghost(fuel): Ghost<nat>) -> (res:
    Vec<NodePtr>)
    requires
        dom.wf(),
        slots_end(dom@, node, fuel),
        composes_children(dom@[node as int]),
        kids@ == children_of(dom@[node as int]),
    ensures
        res@ == flattened(dom@, kids@, fuel),
        links_ok(res@, dom@.len()),
    decreases fuel, 0nat,
{
    let mut res: Vec<NodePtr> = Vec::new();
    let mut i: usize = 0;
    while i < kids.len()
        invariant
            i <= kids.len(),
            dom.wf(),
            slots_end(dom@, node, fuel),
            composes_children(dom@[node as int]),
            kids@ == children_of(dom@[node as int]),
            res@ == flattened(dom@, kids@.take(i as int), fuel),
            links_ok(res@, dom@.len()),
        decreases kids.len() - i,
    {
        let kid: NodePtr = kids[i];
        proof {
            let next = kids@.take(i + 1);
            assert(next.drop_last() == kids@.take(i as int));
            assert(next.last() == kid);
            assert(node_ok(dom@[node as int], dom@.len()));
            assert(children_of(dom@[node as int])[i as int] == kid);
            assert(kid < dom@.len());
        }
        let ghost mid = res@;
        if node_has_tag(dom, kid, "slot") {
            let mut inner = composed_within(dom, kid, Ghost((fuel - 1) as nat));
            let ghost part = inner@;
            res.append(&mut inner);
            assert forall|j: int| 0 <= j < res@.len() implies #[trigger] res@[j] < dom@.len() by {
                if j < mid.len() {
                    assert(res@[j] == mid[j]);
                } else {
                    assert(res@[j] == part[j - mid.len()]);
                }
            }
        } else {
            res.push(kid);
            assert(res@ == mid + seq![kid]);
        }
        i = i + 1;
    }
    assert(kids@.take(i as int) == kids@);
    res
}

/// Everything that [`slots_in`] lists is a slot.
pub proof fn lemma_slots_in(d: DomView, n: NodePtr, fuel: nat)
    requires
        closed_links(d),
        n < d.len(),
    ensures
        forall|i: int|
            0 <= i < slots_in(d, n, fuel).len() ==> #[trigger] slots_in(d, n, fuel)[i] < d.len()
                && is_slot(d[slots_in(d, n, fuel)[i] as int]),
    decreases fuel, 1nat, 0nat,
{
    if let NodeView::Element(el) = d[n as int] {
        assert(node_ok(d[n as int], d.len()));
        lemma_slots_among(d, el.children, fuel);
        let own = if is_slot(d[n as int]) {
            seq![n]
        } else {
            Seq::empty()
        };
        let rest = slots_among(d, el.children, fuel);
        assert forall|i: int| 0 <= i < slots_in(d, n, fuel).len() implies #[trigger] slots_in(
            d,
            n,
            fuel,
        )[i] < d.len() && is_slot(d[slots_in(d, n, fuel)[i] as int]) by {
            if i >= own.len() {
                assert(slots_in(d, n, fuel)[i] == rest[i - own.len()]);
            }
        }
    }
}

proof fn lemma_slots_among(d: DomView, kids: Seq<NodePtr>, fuel: nat)
    requires
        closed_links(d),
        links_ok(kids, d.len()),
    ensures
        forall|i: int|
            0 <= i < slots_among(d, kids, fuel).len() ==> #[trigger] slots_among(d, kids, fuel)[i]
                < d.len() && is_slot(d[slots_among(d, kids, fuel)[i] as int]),
    decreases fuel, 0nat, kids.len(),
{
    if kids.len() > 0 && fuel > 0 {
        let front = kids.drop_last();
        assert(kids[kids.len() - 1] < d.len());
        assert(links_ok(front, d.len())) by {
            assert forall|i: int| 0 <= i < front.len() implies #[trigger] front[i] < d.len() by {
                assert(front[i] == kids[i]);
            }
        }
        lemma_slots_among(d, front, fuel);
        lemma_slots_in(d, kids.last(), (fuel - 1) as nat);
        let a = slots_among(d, front, fuel);
        let b = slots_in(d, kids.last(), (fuel - 1) as nat);
        assert forall|i: int| 0 <= i < slots_among(d, kids, fuel).len() implies #[trigger] slots_among(
            d,
            kids,
            fuel,
        )[i] < d.len() && is_slot(d[slots_among(d, kids, fuel)[i] as int]) by {
            if i >= a.len() {
                assert(slots_among(d, kids, fuel)[i] == b[i - a.len()]);
            } else {
                assert(slots_among(d, kids, fuel)[i] == a[i]);
            }
        }
    }
}

/// The index of the first slot that takes `child`.
fn target_slot(dom: &Dom, slots: &Vec<NodePtr>, child: NodePtr) -> (res: Option<usize>)
    requires
        child < dom@.len(),
        links_ok(slots@, dom@.len()),
    ensures
        match res {
            Some(i) => i < slots.len() && slot_takes(dom@, slots@[i as int], child) && forall|j: int|
                0 <= j < i ==> !slot_takes(dom@, #[trigger] slots@[j], child),
            None => forall|j: int|
                0 <= j < slots.len() ==> !slot_takes(dom@, #[trigger] slots@[j], child),
        },
{
    let wanted: String = match attribute(dom, child, "slot") {
        Some(v) => v,
        None => String::new(),
    };
    let mut i: usize = 0;
    while i < slots.len()
        invariant
            i <= slots.len(),
            links_ok(slots@, dom@.len()),
            wanted@ == value_or_empty(dom@[child as int], "slot"@),
            forall|j: int| 0 <= j < i ==> !slot_takes(dom@, #[trigger] slots@[j], child),
        decreases slots.len() - i,
    {
        let name: String = match attribute(dom, slots[i], "name") {
            Some(v) => v,
            None => String::new(),
        };
        if name == wanted {
            return Some(i);
        }
        i = i + 1;
    }
    None
}

/// Assigns each light node to the first slot that takes it.
fn assign_light_nodes(dom: &mut Dom, slots: &Vec<NodePtr>, light: &Vec<NodePtr>)
    requires
        old(dom).wf(),
        links_ok(light@, old(dom)@.len()),
        forall|i: int|
            0 <= i < slots.len() ==> #[trigger] slots@[i] < old(dom)@.len() && is_slot(
                old(dom)@[slots@[i] as int],
            ),
    ensures
        final(dom).wf(),
        final(dom)@ == spread_over(old(dom)@, slots@, slots@, light@),
{
    let ghost d = dom@;
    let mut i: usize = 0;
    proof {
        dom.lemma_size();
        reveal(Seq::filter);
        assert(dom@ =~= spread_over(d, slots@.take(0), slots@, Seq::empty()));
    }
    while i < slots.len()
        invariant
            i <= slots.len(),
            dom.wf(),
            d == old(dom)@,
            d.len() <= usize::MAX,
            dom@.len() == d.len(),
            forall|i: int|
                0 <= i < slots.len() ==> #[trigger] slots@[i] < d.len() && is_slot(
                    d[slots@[i] as int],
                ),
            dom@ == spread_over(d, slots@.take(i as int), slots@, Seq::empty()),
        decreases slots.len() - i,
    {
        let ghost mid = dom@;
        let slot: NodePtr = slots[i];
        set_assigned_nodes(dom, slot, Vec::new());
        proof {
            reveal(Seq::filter);
            let next = spread_over(d, slots@.take(i + 1), slots@, Seq::empty());
            assert forall|x: int| 0 <= x < d.len() implies #[trigger] dom@[x] == next[x] by {
                let p = x as NodePtr;
                let less = slots@.take(i as int);
                let more = slots@.take(i + 1);
                if more.contains(p) {
                    let j = choose|j: int| 0 <= j < more.len() && more[j] == p;
                    if j < i {
                        assert(less[j] == p);
                    }
                }
                if less.contains(p) {
                    let j = choose|j: int| 0 <= j < less.len() && less[j] == p;
                    assert(more[j] == p);
                }
                if p == slot {
                    assert(more[i as int] == p);
                }
            }
            assert(dom@ =~= next);
        }
        i = i + 1;
    }
    proof {
        assert(slots@.take(i as int) == slots@);
        assert(light@.take(0) == Seq::<NodePtr>::empty());
    }
    let mut k: usize = 0;
    while k < light.len()
        invariant
            k <= light.len(),
            dom.wf(),
            d == old(dom)@,
            d.len() <= usize::MAX,
            dom@.len() == d.len(),
            links_ok(light@, d.len()),
            forall|i: int|
                0 <= i < slots.len() ==> #[trigger] slots@[i] < d.len() && is_slot(
                    d[slots@[i] as int],
                ),
            dom@ == spread_over(d, slots@, slots@, light@.take(k as int)),
        decreases light.len() - k,
    {
        let ghost mid = dom@;
        let child: NodePtr = light[k];
        proof {
            assert(forall|x: int, name: Seq<char>|
                0 <= x < d.len() ==> attribute_of(#[trigger] mid[x], name) == #[trigger] attribute_of(d[x], name));
        }
        let found = target_slot(dom, slots, child);
        let ghost seen = light@.take(k as int);
        proof {
            reveal(Seq::filter);
            assert(light@.take(k + 1).drop_last() == seen);
            assert(light@.take(k + 1).last() == child);
            assert forall|j: int| 0 <= j < slots.len() implies slot_takes(
                mid,
                #[trigger] slots@[j],
                child,
            ) == slot_takes(d, slots@[j], child) by {
                assert(attribute_of(mid[slots@[j] as int], "name"@) == attribute_of(
                    d[slots@[j] as int],
                    "name"@,
                ));
                assert(attribute_of(mid[child as int], "slot"@) == attribute_of(
                    d[child as int],
                    "slot"@,
                ));
            }
        }
        if let Some(at) = found {
            let slot: NodePtr = slots[at];
            push_assigned_node(dom, slot, child);
            proof {
                assert(goes_to(d, slots@, child, slot)) by {
                    assert(slots@[at as int] == slot);
                }
                let next = spread_over(d, slots@, slots@, light@.take(k + 1));
                assert forall|x: int| 0 <= x < d.len() implies #[trigger] dom@[x] == next[x] by {
                    let p = x as NodePtr;
                    if goes_to(d, slots@, child, p) {
                        let j = choose|j: int|
                            0 <= j < slots.len() && #[trigger] slots@[j] == p && slot_takes(
                                d,
                                p,
                                child,
                            ) && forall|h: int|
                                0 <= h < j ==> !slot_takes(d, #[trigger] slots@[h], child);
                        assert(slot_takes(d, slots@[j], child));
                        assert(slot_takes(d, slots@[at as int], child));
                        assert(j == at);
                    }
                    if p == slot {
                        assert(slots@[at as int] == p);
                        assert(slots@.contains(p));
                        assert(is_slot(d[slots@[at as int] as int]));
                        assert(assigned_of(mid[x]) == assigned_to(d, slots@, seen, p));
                    }
                }
                assert(dom@ =~= next);
            }
        } else {
            proof {
                let next = spread_over(d, slots@, slots@, light@.take(k + 1));
                assert forall|x: int| 0 <= x < d.len() implies #[trigger] dom@[x] == next[x] by {
                    let p = x as NodePtr;
                    if goes_to(d, slots@, child, p) {
                        let j = choose|j: int|
                            0 <= j < slots.len() && #[trigger] slots@[j] == p && slot_takes(
                                d,
                                p,
                                child,
                            ) && forall|h: int|
                                0 <= h < j ==> !slot_takes(d, #[trigger] slots@[h], child);
                        assert(slot_takes(d, slots@[j], child));
                        assert(false);
                    }
                }
                assert(dom@ =~= next);
            }
        }
        k = k + 1;
    }
    assert(light@.take(k as int) == light@);
}

impl ShadowTreeBackend for SyntheticShadowTreeBackend {
    fn attach_shadow(&self, dom: &mut Dom, host: NodePtr, _mode: &str) -> NodePtr {
        match shadow_root(dom, host) {
            Some(root) => {
                proof {
                    assert(node_ok(dom@[host as int], dom@.len()));
                }
                set_parent(dom, root, host);
                root
            },
            None => {
                let ghost before = dom@;
                let root: NodePtr = Node::document_fragment(dom, Vec::new());
                proof {
                    assert(dom@ == before.push(
                        fresh_element("#document-fragment"@, Map::empty(), Seq::empty()),
                    ));
                }
                set_shadow_root(dom, host, Some(root));
                set_parent(dom, root, host);
                root
            },
        }
    }

    fn adopt_shadow_root(&self, dom: &mut Dom, host: NodePtr, root: NodePtr) -> bool {
        if !is_document_fragment(dom, root) {
            return false;
        }
        let ghost d = dom@;
        if let Some(p) = parent_ptr(dom, root) {
            proof {
                assert(node_ok(dom@[root as int], dom@.len()));
            }
            if p != host {
                if let Node::Element(el) = dom.node(p) {
                    let kept = list_without(&el.children, root);
                    proof {
                        assert(node_ok(dom@[p as int], dom@.len()));
                        lemma_without(el.children@, root);
                        assert(links_ok(el.children@, dom@.len()));
                    }
                    set_children(dom, p, kept);
                }
            }
        }
        let ghost e = dom@;
        assert(e == released(d, host, root));
        if !crate::dom::node::is_element_node(dom, host) {
            return false;
        }
        let previous = shadow_root(dom, host);
        proof {
            assert(node_ok(dom@[host as int], dom@.len()));
        }
        set_shadow_root(dom, host, Some(root));
        if let Some(old_root) = previous {
            if old_root != root {
                clear_parent(dom, old_root);
            }
        }
        set_parent(dom, root, host);
        assert(dom@ == rehosted(d, host, root));
        reparent_subtree(dom, root);
        true
    }

    fn append_shadow_child(&self, dom: &mut Dom, root: NodePtr, child: NodePtr) {
        if crate::dom::node::is_element_node(dom, root) {
            let mut kids = child_nodes(dom, root);
            proof {
                assert(node_ok(dom@[root as int], dom@.len()));
            }
            kids.push(child);
            set_children(dom, root, kids);
        }
        set_parent(dom, child, root);
    }

    fn composed_children(&self, dom: &Dom, node: NodePtr) -> Vec<NodePtr> {
        composed_within(dom, node, Ghost(dom@.len()))
    }

    fn distribute_slots(&self, dom: &mut Dom, host: NodePtr) {
        if let Some(root) = shadow_root(dom, host) {
            let mut slots: Vec<NodePtr> = Vec::new();
            proof {
                assert(node_ok(dom@[host as int], dom@.len()));
            }
            find_slots(dom, root, &mut slots, Ghost(dom@.len()));
            let light = child_nodes(dom, host);
            proof {
                lemma_slots_in(dom@, root, dom@.len());
                assert(slots@ == slots_in(dom@, root, dom@.len()));
            }
            assign_light_nodes(dom, &slots, &light);
        }
    }

    fn assigned_nodes(&self, dom: &Dom, slot: NodePtr) -> Vec<NodePtr> {
        match dom.node(slot) {
            Node::Element(el) => copy_list(&el.assigned_nodes),
            _ => Vec::new(),
        }
    }

    fn host_for_shadow_root(&self, dom: &Dom, root: NodePtr) -> Option<NodePtr> {
        if self.is_shadow_root(dom, root) {
            parent_ptr(dom, root)
        } else {
            None
        }
    }

    fn is_shadow_root(&self, dom: &Dom, node: NodePtr) -> bool {
        if !is_document_fragment(dom, node) {
            return false;
        }
        proof {
            assert(node_ok(dom@[node as int], dom@.len()));
        }
        match parent_ptr(dom, node) {
            Some(parent) => match shadow_root(dom, parent) {
                Some(root) => root == node,
                None => false,
            },
            None => false,
        }
    }

    fn nearest_shadow_root(&self, dom: &Dom, node: NodePtr) -> Option<NodePtr> {
        let mut current: NodePtr = node;
        let ghost mut fuel = dom@.len();
        loop
            invariant
                dom.wf(),
                climb_ends(dom@, current, fuel),
                nearest_root(dom@, current, fuel) == nearest_root(dom@, node, dom@.len()),
            decreases fuel,
        {
            if self.is_shadow_root(dom, current) {
                return Some(current);
            }
            match parent_ptr(dom, current) {
                Some(parent) => {
                    current = parent;
                    proof {
                        fuel = (fuel - 1) as nat;
                    }
                },
                None => {
                    return None;
                },
            }
        }
    }
}

/// Attaching to a host twice yields the same root and changes nothing more.
pub proof fn law_attach_shadow_is_idempotent(d: DomView, host: NodePtr)
    requires
        closed_links(d),
        host < d.len(),
        d.len() < usize::MAX,
        d[host as int] is Element,
    ensures
        attached_root(attached(d, host), host) == attached_root(d, host),
        attached(attached(d, host), host) == attached(d, host),
        (shadow_root_of(d[host as int]) matches Some(root) ==> is_fragment(d[root as int]))
            ==> is_root_at(attached(d, host), attached_root(d, host)) && parent_of(
            attached(d, host)[attached_root(d, host) as int],
        ) == Some(host),
{
    let root = attached_root(d, host);
    let e = attached(d, host);
    assert(node_ok(d[host as int], d.len()));
    if shadow_root_of(d[host as int]) is Some {
        assert(attached(e, host) =~= e);
    } else {
        assert(e.len() == d.len() + 1);
        assert(root == d.len());
        assert(shadow_root_of(e[host as int]) == Some(root));
        assert(attached(e, host) =~= e);
    }
}

/// A shadow root is its own nearest shadow root.
pub proof fn law_shadow_root_is_its_nearest_root(d: DomView, root: NodePtr)
    requires
        root < d.len(),
        is_root_at(d, root),
    ensures
        nearest_root(d, root, d.len()) == Some(root),
{
}

/// No light node goes to two slots.
pub proof fn law_light_node_goes_to_one_slot(
    d: DomView,
    slots: Seq<NodePtr>,
    child: NodePtr,
    a: NodePtr,
    b: NodePtr,
)
    requires
        goes_to(d, slots, child, a),
        goes_to(d, slots, child, b),
    ensures
        a == b,
{
    let i = choose|i: int|
        0 <= i < slots.len() && #[trigger] slots[i] == a && slot_takes(d, a, child)
            && forall|j: int| 0 <= j < i ==> !slot_takes(d, #[trigger] slots[j], child);
    let k = choose|k: int|
        0 <= k < slots.len() && #[trigger] slots[k] == b && slot_takes(d, b, child)
            && forall|j: int| 0 <= j < k ==> !slot_takes(d, #[trigger] slots[j], child);
    assert(slot_takes(d, slots[i], child) && slot_takes(d, slots[k], child));
}

/// Whether two arenas differ at most in the nodes assigned to slots.
pub open spec fn same_but_assigned(d: DomView, e: DomView) -> bool {
    &&& d.len() == e.len()
    &&& forall|i: int|
        0 <= i < d.len() ==> #[trigger] e[i] == with_assigned(d[i], assigned_of(e[i]))
}

/// What is assigned to slots does not matter to where they are.
pub proof fn lemma_same_slots_in(d: DomView, e: DomView, n: NodePtr, fuel: nat)
    requires
        closed_links(d),
        same_but_assigned(d, e),
        n < d.len(),
    ensures
        slots_in(d, n, fuel) == slots_in(e, n, fuel),
    decreases fuel, 1nat, 0nat,
{
    assert(e[n as int] == with_assigned(d[n as int], assigned_of(e[n as int])));
    if let NodeView::Element(el) = d[n as int] {
        assert(node_ok(d[n as int], d.len()));
        lemma_same_slots_among(d, e, el.children, fuel);
    }
}

proof fn lemma_same_slots_among(d: DomView, e: DomView, kids: Seq<NodePtr>, fuel: nat)
    requires
        closed_links(d),
        same_but_assigned(d, e),
        links_ok(kids, d.len()),
    ensures
        slots_among(d, kids, fuel) == slots_among(e, kids, fuel),
    decreases fuel, 0nat, kids.len(),
{
    if kids.len() > 0 && fuel > 0 {
        assert(kids[kids.len() - 1] < d.len());
        assert forall|i: int| 0 <= i < kids.drop_last().len() implies #[trigger] kids.drop_last()[i]
            < d.len() by {
            assert(kids[i] < d.len());
        }
        lemma_same_slots_among(d, e, kids.drop_last(), fuel);
        lemma_same_slots_in(d, e, kids.last(), (fuel - 1) as nat);
    }
}

proof fn lemma_filter_none(s: Seq<NodePtr>, p: spec_fn(NodePtr) -> bool)
    requires
        forall|c: NodePtr| !#[trigger] p(c),
    ensures
        s.filter(p) == Seq::<NodePtr>::empty(),
    decreases s.len(),
{
    reveal(Seq::filter);
    if s.len() > 0 {
        lemma_filter_none(s.drop_last(), p);
    }
}

/// The first slot of a name gets exactly the light children that ask for that
/// name, in their order, and later slots of the name get none. What slots had
/// before is gone, and nothing else changes, the light children included. A slot
/// that the shadow tree holds twice counts where it comes first.
pub proof fn law_first_slot_of_a_name_takes_its_children(d: DomView, host: NodePtr, k: int)
    requires
        closed_links(d),
        d.len() <= usize::MAX,
        host < d.len(),
        shadow_root_of(d[host as int]) is Some,
    ensures
        ({
            let slots = slots_in(d, shadow_root_of(d[host as int])->0, d.len());
            let light = children_of(d[host as int]);
            let e = distributed(d, host);
            &&& same_but_assigned(d, e)
            &&& children_of(e[host as int]) == light
            &&& forall|i: int|
                0 <= i < d.len() && !slots.contains(i as NodePtr) ==> #[trigger] e[i] == d[i]
            &&& 0 <= k < slots.len() && !slots.take(k).contains(slots[k]) ==> {
                let name = value_or_empty(d[slots[k] as int], "name"@);
                if exists|j: int|
                    0 <= j < k && value_or_empty(d[#[trigger] slots[j] as int], "name"@) == name {
                    assigned_of(e[slots[k] as int]) == Seq::<NodePtr>::empty()
                } else {
                    assigned_of(e[slots[k] as int]) == light.filter(
                        |c: NodePtr| value_or_empty(d[c as int], "slot"@) == name,
                    )
                }
            }
        }),
{
    let root = shadow_root_of(d[host as int])->0;
    let slots = slots_in(d, root, d.len());
    let light = children_of(d[host as int]);
    let e = distributed(d, host);
    assert(node_ok(d[host as int], d.len()));
    assert forall|i: int| 0 <= i < d.len() implies #[trigger] e[i] == with_assigned(
        d[i],
        assigned_of(e[i]),
    ) by {}
    assert(e[host as int] == with_assigned(d[host as int], assigned_of(e[host as int])));
    lemma_slots_in(d, root, d.len());
    if 0 <= k < slots.len() && !slots.take(k).contains(slots[k]) {
        let slot = slots[k];
        let name = value_or_empty(d[slot as int], "name"@);
        let goes = |c: NodePtr| goes_to(d, slots, c, slot);
        assert(slots.contains(slot));
        assert(assigned_of(e[slot as int]) == light.filter(goes));
        if exists|j: int|
            0 <= j < k && value_or_empty(d[#[trigger] slots[j] as int], "name"@) == name {
            let j = choose|j: int|
                0 <= j < k && value_or_empty(d[#[trigger] slots[j] as int], "name"@) == name;
            assert forall|c: NodePtr| !#[trigger] goes(c) by {
                if goes_to(d, slots, c, slot) {
                    let i = choose|i: int|
                        0 <= i < slots.len() && #[trigger] slots[i] == slot && slot_takes(
                            d,
                            slot,
                            c,
                        ) && forall|h: int| 0 <= h < i ==> !slot_takes(d, #[trigger] slots[h], c);
                    if i < k {
                        assert(slots.take(k)[i] == slot);
                    }
                    assert(!slot_takes(d, slots[j], c));
                }
            }
            lemma_filter_none(light, goes);
        } else {
            let asks = |c: NodePtr| value_or_empty(d[c as int], "slot"@) == name;
            assert forall|c: NodePtr| light.contains(c) implies goes(c) == asks(c) by {
                if asks(c) {
                    assert(slots[k] == slot && slot_takes(d, slot, c));
                    assert forall|h: int| 0 <= h < k implies !slot_takes(
                        d,
                        #[trigger] slots[h],
                        c,
                    ) by {}
                    assert(goes_to(d, slots, c, slot));
                }
            }
            lemma_filter_same(light, goes, asks);
        }
    }
}

/// Distributing the same light children again changes nothing.
pub proof fn law_distribute_slots_is_idempotent(d: DomView, host: NodePtr)
    requires
        closed_links(d),
        d.len() <= usize::MAX,
        host < d.len(),
    ensures
        distributed(distributed(d, host), host) == distributed(d, host),
{
    let e = distributed(d, host);
    if let Some(root) = shadow_root_of(d[host as int]) {
        assert(node_ok(d[host as int], d.len()));
        let slots = slots_in(d, root, d.len());
        let light = children_of(d[host as int]);
        assert forall|i: int| 0 <= i < d.len() implies #[trigger] e[i] == with_assigned(
            d[i],
            assigned_of(e[i]),
        ) by {}
        lemma_same_slots_in(d, e, root, d.len());
        assert(e[host as int] == with_assigned(d[host as int], assigned_of(e[host as int])));
        assert(children_of(e[host as int]) == light);
        assert(shadow_root_of(e[host as int]) == Some(root));
        lemma_slots_in(d, root, d.len());
        let again = distributed(e, host);
        assert forall|i: int| 0 <= i < d.len() implies #[trigger] again[i] == e[i] by {
            let p = i as NodePtr;
            if slots.contains(p) {
                assert forall|c: NodePtr| light.contains(c) implies goes_to(e, slots, c, p)
                    == goes_to(d, slots, c, p) by {
                    let at = choose|at: int| 0 <= at < light.len() && light[at] == c;
                    assert(light[at] < d.len());
                    lemma_goes_to_same(d, e, slots, c, p);
                }
                lemma_filter_same(
                    light,
                    |c: NodePtr| goes_to(d, slots, c, p),
                    |c: NodePtr| goes_to(e, slots, c, p),
                );
            }
        }
        assert(again =~= e);
    }
}

proof fn lemma_goes_to_same(d: DomView, e: DomView, slots: Seq<NodePtr>, c: NodePtr, p: NodePtr)
    requires
        same_but_assigned(d, e),
        c < d.len(),
        links_ok(slots, d.len()),
    ensures
        goes_to(e, slots, c, p) == goes_to(d, slots, c, p),
{
    assert(e[c as int] == with_assigned(d[c as int], assigned_of(e[c as int])));
    assert forall|j: int| 0 <= j < slots.len() implies slot_takes(e, #[trigger] slots[j], c)
        == slot_takes(d, slots[j], c) by {
        assert(e[slots[j] as int] == with_assigned(
            d[slots[j] as int],
            assigned_of(e[slots[j] as int]),
        ));
    }
    if goes_to(d, slots, c, p) {
        let i = choose|i: int|
            0 <= i < slots.len() && #[trigger] slots[i] == p && slot_takes(d, p, c)
                && forall|j: int| 0 <= j < i ==> !slot_takes(d, #[trigger] slots[j], c);
        assert(slot_takes(e, slots[i], c));
    }
    if goes_to(e, slots, c, p) {
        let i = choose|i: int|
            0 <= i < slots.len() && #[trigger] slots[i] == p && slot_takes(e, p, c)
                && forall|j: int| 0 <= j < i ==> !slot_takes(e, #[trigger] slots[j], c);
        assert(slot_takes(d, slots[i], c));
    }
}

proof fn lemma_filter_same(
    s: Seq<NodePtr>,
    p: spec_fn(NodePtr) -> bool,
    q: spec_fn(NodePtr) -> bool,
)
    requires
        forall|c: NodePtr| s.contains(c) ==> p(c) == q(c),
    ensures
        s.filter(p) == s.filter(q),
    decreases s.len(),
{
    reveal(Seq::filter);
    if s.len() > 0 {
        let t = s.drop_last();
        assert forall|c: NodePtr| t.contains(c) implies p(c) == q(c) by {
            let i = choose|i: int| 0 <= i < t.len() && t[i] == c;
            assert(s[i] == c);
            assert(s.contains(c));
        }
        assert(s.contains(s[s.len() - 1]));
        lemma_filter_same(t, p, q);
    }
}

/// The children of the elements of a document.
pub open spec fn element_child_lists(d: DomView) -> Below {
    |m: NodePtr|
        match d[m as int] {
            NodeView::Element(el) => el.children,
            _ => Seq::empty(),
        }
}

/// A node as a list, if it is a slot.
pub open spec fn slot_alone(d: DomView) -> spec_fn(NodePtr) -> Seq<NodePtr> {
    |m: NodePtr|
        if d[m as int] matches NodeView::Element(el) && el.tag_name == "slot"@ {
            seq![m]
        } else {
            Seq::empty()
        }
}

proof fn lemma_slots_gathered(d: DomView, n: NodePtr, fuel: nat)
    ensures
        slots_in(d, n, fuel) == gathered(slot_alone(d), element_child_lists(d), n, fuel),
    decreases fuel, 1nat, 0nat,
{
    match d[n as int] {
        NodeView::Element(el) => {
            lemma_slots_gathered_all(d, el.children, fuel);
        },
        _ => {
            assert(slots_in(d, n, fuel) =~= gathered(
                slot_alone(d),
                element_child_lists(d),
                n,
                fuel,
            ));
        },
    }
}

proof fn lemma_slots_gathered_all(d: DomView, kids: Seq<NodePtr>, fuel: nat)
    ensures
        slots_among(d, kids, fuel) == gathered_all(
            slot_alone(d),
            element_child_lists(d),
            kids,
            fuel,
        ),
    decreases fuel, 0nat, kids.len(),
{
    if kids.len() > 0 && fuel > 0 {
        lemma_slots_gathered_all(d, kids.drop_last(), fuel);
        lemma_slots_gathered(d, kids.last(), (fuel - 1) as nat);
    }
}

/// The slots of a shadow tree are all the slot elements that can be reached from
/// its root through the child lists of elements, in tree order, and no others.
pub proof fn law_every_slot_is_found(d: DomView, root: NodePtr)
    requires
        finite_from(d, root, Reach::Children),
    ensures
        lists_all(
            |m: NodePtr|
                if d[m as int] matches NodeView::Element(el) && el.tag_name == "slot"@ {
                    seq![m]
                } else {
                    Seq::empty()
                },
            |m: NodePtr|
                match d[m as int] {
                    NodeView::Element(el) => el.children,
                    _ => Seq::empty(),
                },
            root,
            slots_in(d, root, d.len()),
        ),
{
    lemma_routes_end(d, element_child_lists(d), root, Reach::Children, d.len());
    lemma_gathered_lists_all(slot_alone(d), element_child_lists(d), root, d.len());
    lemma_slots_gathered(d, root, d.len());
}

/// Whether an attribute of a node has that value; an absent one is empty.
pub open spec fn says(n: NodeView, attribute: Seq<char>, value: Seq<char>) -> bool {
    match n {
        NodeView::Element(el) => if el.attributes.contains_key(attribute) {
            el.attributes[attribute] == value
        } else {
            value.len() == 0
        },
        _ => value.len() == 0,
    }
}

/// Whether `slot` is a slot element that can be reached from `root` through the
/// child lists of elements.
pub open spec fn has_slot(d: DomView, root: NodePtr, slot: NodePtr) -> bool {
    &&& d[slot as int] matches NodeView::Element(el) && el.tag_name == "slot"@
    &&& exists|route: Seq<int>| #[trigger]
        arrival(element_child_lists(d), root, route) == Some(slot)
}

proof fn lemma_has_slot(d: DomView, root: NodePtr, slot: NodePtr)
    requires
        finite_from(d, root, Reach::Children),
    ensures
        has_slot(d, root, slot) <==> slots_in(d, root, d.len()).contains(slot),
{
    let slots = slots_in(d, root, d.len());
    let below = element_child_lists(d);
    law_every_slot_is_found(d, root);
    if has_slot(d, root, slot) {
        let route = choose|route: Seq<int>| #[trigger] arrival(below, root, route) == Some(slot);
        assert(slot_alone(d)(slot)[0] == slot);
        lemma_listed_has(slot_alone(d), below, root, slots, route, slot);
    }
    if slots.contains(slot) {
        let route = lemma_listed_from(slot_alone(d), below, root, slots, slot);
        let at = arrival(below, root, route)->0;
        let own = slot_alone(d)(at);
        let i = choose|i: int| 0 <= i < own.len() && own[i] == slot;
        assert(own[i] == at);
    }
}

/// A light child is assigned to exactly one slot of the shadow tree if some slot
/// anywhere in the tree has the name that it asks for, and to none otherwise. The
/// slot has that name.
pub proof fn law_light_children_get_their_slot(d: DomView, host: NodePtr, c: NodePtr, name: Seq<char>)
    requires
        closed_links(d),
        d.len() <= usize::MAX,
        host < d.len(),
        d[host as int] is Element,
        d[host as int]->Element_0.shadow_root is Some,
        finite_from(d, d[host as int]->Element_0.shadow_root->0, Reach::Children),
        d[host as int]->Element_0.children.contains(c),
        says(d[c as int], "slot"@, name),
    ensures
        ({
            let root = d[host as int]->Element_0.shadow_root->0;
            let e = distributed(d, host);
            &&& forall|slot: NodePtr|
                has_slot(d, root, slot) && (#[trigger] e[slot as int])->Element_0.assigned_nodes.contains(
                    c,
                ) ==> says(d[slot as int], "name"@, name)
            &&& forall|a: NodePtr, b: NodePtr|
                has_slot(d, root, a) && has_slot(d, root, b) && (
                #[trigger] e[a as int])->Element_0.assigned_nodes.contains(c) && (
                #[trigger] e[b as int])->Element_0.assigned_nodes.contains(c) ==> a == b
            &&& (exists|slot: NodePtr| #[trigger]
                has_slot(d, root, slot) && says(d[slot as int], "name"@, name)) ==> exists|
                slot: NodePtr,
            | #[trigger]
                has_slot(d, root, slot) && e[slot as int]->Element_0.assigned_nodes.contains(c)
        }),
{
    let root = d[host as int]->Element_0.shadow_root->0;
    let e = distributed(d, host);
    let slots = slots_in(d, root, d.len());
    let light = children_of(d[host as int]);
    assert(node_ok(d[host as int], d.len()));
    lemma_slots_in(d, root, d.len());
    broadcast use vstd::seq_lib::group_filter_ensures;

    assert forall|slot: NodePtr| has_slot(d, root, slot) implies slots.contains(slot) && slot
        < d.len() && (#[trigger] e[slot as int])->Element_0.assigned_nodes.contains(c) == goes_to(
        d,
        slots,
        c,
        slot,
    ) by {
        lemma_has_slot(d, root, slot);
        let i = choose|i: int| 0 <= i < slots.len() && slots[i] == slot;
        assert(slots[i] < d.len());
        let goes = |x: NodePtr| goes_to(d, slots, x, slot);
        assert(e[slot as int] == with_assigned(d[slot as int], light.filter(goes)));
        let k = choose|k: int| 0 <= k < light.len() && light[k] == c;
        if goes(c) {
            assert(goes(light[k]));
            assert(light.filter(goes).contains(c));
        }
    }
    assert forall|slot: NodePtr| slot < d.len() implies #[trigger] slot_takes(d, slot, c) == says(
        d[slot as int],
        "name"@,
        name,
    ) by {
        let a = value_or_empty(d[slot as int], "name"@);
        let b = value_or_empty(d[c as int], "slot"@);
        assert(b =~= name);
        if a.len() == 0 && name.len() == 0 {
            assert(a =~= name);
        }
    }
    assert forall|a: NodePtr, b: NodePtr|
        has_slot(d, root, a) && has_slot(d, root, b) && (
        #[trigger] e[a as int])->Element_0.assigned_nodes.contains(c) && (
        #[trigger] e[b as int])->Element_0.assigned_nodes.contains(c) implies a == b by {
        law_light_node_goes_to_one_slot(d, slots, c, a, b);
    }
    if exists|slot: NodePtr| #[trigger]
        has_slot(d, root, slot) && says(d[slot as int], "name"@, name) {
        let slot = choose|slot: NodePtr| #[trigger]
            has_slot(d, root, slot) && says(d[slot as int], "name"@, name);
        lemma_has_slot(d, root, slot);
        let k = choose|k: int| 0 <= k < slots.len() && slots[k] == slot;
        let first = lemma_first_taker(d, slots, c, k);
        lemma_has_slot(d, root, slots[first]);
        assert(slots.contains(slots[first]));
        assert(goes_to(d, slots, c, slots[first]));
        assert(e[slots[first] as int]->Element_0.assigned_nodes.contains(c));
    }
}

proof fn lemma_first_taker(d: DomView, slots: Seq<NodePtr>, c: NodePtr, k: int) -> (first: int)
    requires
        0 <= k < slots.len(),
        slot_takes(d, slots[k], c),
    ensures
        0 <= first <= k,
        slot_takes(d, slots[first], c),
        forall|j: int| 0 <= j < first ==> !slot_takes(d, #[trigger] slots[j], c),
    decreases k,
{
    if forall|j: int| 0 <= j < k ==> !slot_takes(d, #[trigger] slots[j], c) {
        k
    } else {
        let j = choose|j: int| 0 <= j < k && slot_takes(d, #[trigger] slots[j], c);
        lemma_first_taker(d, slots, c, j)
    }
}

} // verus!
