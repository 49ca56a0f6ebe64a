//! Tests of whether walks through the document end.
//!
//! Walks follow links from node to node and end where no node is its own
//! descendant. The tests here decide that, so that a document that was put
//! together elsewhere can be held to it before it is walked.

use crate::dom::layers::{acyclic, below, holds, holds_within, lemma_holds_ends,
    lemma_layers_end_children, lemma_root_is_lower, may_be_given, owner_layers, owns, render_layers,
    render_step, renderable};
use crate::dom::node::{child_nodes, children_of, closed_links, ends_within, finite_from, followed,
    node_has_tag, node_ok, opt_seq, parent_ptr, retained_nodes, shadow_root, shadow_root_of,
    template_contents, Dom, DomView, Node, NodePtr, Reach};
use crate::dom::shadow::{climb_ends, find_slots, lemma_slots_in, slots_in, ShadowTreeBackend,
    SyntheticShadowTreeBackend};
use vstd::prelude::*;

verus! {

fn push_all(out: &mut Vec<NodePtr>, list: &Vec<NodePtr>)
    ensures
        final(out)@ == old(out)@ + list@,
{
    let ghost start = out@;
    let mut i: usize = 0;
    assert(start + list@.take(0) =~= start);
    while i < list.len()
        invariant
            i <= list.len(),
            out@ == start + list@.take(i as int),
        decreases list.len() - i,
    {
        out.push(list[i]);
        i = i + 1;
        assert(out@ =~= start + list@.take(i as int));
    }
    assert(list@.take(i as int) =~= list@);
}

/// The links of `node` that a walk follows.
pub fn followed_nodes(dom: &Dom, node: NodePtr, reach: Reach) -> (res: Vec<NodePtr>)
    requires
        node < dom@.len(),
    ensures
        res@ == followed(dom@[node as int], reach),
{
    match reach {
        Reach::Children => child_nodes(dom, node),
        Reach::Inert => {
            let mut res = child_nodes(dom, node);
            if let Some(content) = template_contents(dom, node) {
                res.push(content);
            }
            assert(res@ =~= followed(dom@[node as int], reach));
            res
        },
        Reach::Retained => retained_nodes(dom, node),
        Reach::All => {
            let mut res = child_nodes(dom, node);
            let kept = retained_nodes(dom, node);
            push_all(&mut res, &kept);
            res
        },
        Reach::ElementChildren => match dom.node(node) {
            Node::Element(_) => child_nodes(dom, node),
            _ => Vec::new(),
        },
    }
}

fn walk_within(dom: &Dom, node: NodePtr, reach: Reach, fuel: usize) -> (res: bool)
    ensures
        res == ends_within(dom@, node, reach, fuel as nat),
    decreases fuel,
{
    if fuel == 0 || node >= dom.len() {
        return false;
    }
    let links = followed_nodes(dom, node, reach);
    let mut i: usize = 0;
    while i < links.len()
        invariant
            i <= links.len(),
            fuel > 0,
            node < dom@.len(),
            links@ == followed(dom@[node as int], reach),
            forall|j: int|
                0 <= j < i ==> ends_within(dom@, #[trigger] links@[j], reach, (fuel - 1) as nat),
        decreases links.len() - i,
    {
        if !walk_within(dom, links[i], reach, fuel - 1) {
            assert(!ends_within(
                dom@,
                followed(dom@[node as int], reach)[i as int],
                reach,
                (fuel - 1) as nat,
            ));
            return false;
        }
        i = i + 1;
    }
    assert forall|j: int| 0 <= j < followed(dom@[node as int], reach).len() implies ends_within(
        dom@,
        #[trigger] followed(dom@[node as int], reach)[j],
        reach,
        (fuel - 1) as nat,
    ) by {
        assert(links@[j] == followed(dom@[node as int], reach)[j]);
    }
    true
}

/// Whether `node` names a node and the walk from it ends.
pub fn is_finite_from(dom: &Dom, node: NodePtr, reach: Reach) -> (res: bool)
    ensures
        res == finite_from(dom@, node, reach),
{
    walk_within(dom, node, reach, dom.len())
}

/// Whether the walk up from `node` to the nearest shadow root ends.
pub fn is_climb_finite(dom: &Dom, node: NodePtr) -> (res: bool)
    requires
        dom.wf(),
    ensures
        res == climb_ends(dom@, node, dom@.len()),
{
    let backend = SyntheticShadowTreeBackend;
    let mut current = node;
    let mut fuel = dom.len();
    loop
        invariant
            dom.wf(),
            climb_ends(dom@, current, fuel as nat) == climb_ends(dom@, node, dom@.len()),
        decreases fuel,
    {
        if fuel == 0 || current >= dom.len() {
            return false;
        }
        if backend.is_shadow_root(dom, current) {
            return true;
        }
        match parent_ptr(dom, current) {
            Some(parent) => {
                current = parent;
                fuel = fuel - 1;
            },
            None => {
                return true;
            },
        }
    }
}

/// Whether every step of a list leads to a lower layer.
pub open spec fn descends(len: nat, steps: Seq<(NodePtr, NodePtr)>, layers: Seq<nat>) -> bool {
    &&& layers.len() == len
    &&& forall|i: int| 0 <= i < len ==> #[trigger] layers[i] < len
    &&& forall|k: int|
        0 <= k < steps.len() ==> layers[(#[trigger] steps[k]).1 as int] < layers[steps[k].0 as int]
}

/// How far layers can still be raised.
spec fn room(layers: Seq<usize>, len: nat) -> nat
    decreases layers.len(),
{
    if layers.len() == 0 {
        0
    } else {
        room(layers.drop_last(), len) + (len - layers.last()) as nat
    }
}

proof fn lemma_raising_takes_room(layers: Seq<usize>, len: nat, i: int, to: usize)
    requires
        0 <= i < layers.len(),
        layers[i] < to < len,
        forall|j: int| 0 <= j < layers.len() ==> #[trigger] layers[j] < len,
    ensures
        room(layers.update(i, to), len) < room(layers, len),
    decreases layers.len(),
{
    let raised = layers.update(i, to);
    if i == layers.len() - 1 {
        assert(raised.drop_last() =~= layers.drop_last());
    } else {
        assert(raised.drop_last() =~= layers.drop_last().update(i, to));
        assert forall|j: int| 0 <= j < layers.drop_last().len() implies (
        #[trigger] layers.drop_last()[j]) < len by {
            assert(layers[j] < len);
        }
        lemma_raising_takes_room(layers.drop_last(), len, i, to);
    }
}

/// Whether no layers that descend lie below these anywhere.
spec fn least(len: nat, steps: Seq<(NodePtr, NodePtr)>, layers: Seq<usize>) -> bool {
    forall|other: Seq<nat>, i: int|
        #![trigger descends(len, steps, other), layers[i]]
        descends(len, steps, other) && 0 <= i < len ==> layers[i] <= other[i]
}

/// Raises the start of every step above its end where it has to be. `None`
/// where a layer would grow too high, otherwise whether anything was raised.
fn raise_layers(len: usize, steps: &Vec<(NodePtr, NodePtr)>, layers: &mut Vec<usize>) -> (res: Option<
    bool,
>)
    requires
        old(layers)@.len() == len,
        forall|i: int| 0 <= i < len ==> #[trigger] old(layers)@[i] < len,
        forall|k: int|
            0 <= k < steps@.len() ==> (#[trigger] steps@[k]).0 < len && steps@[k].1 < len,
        least(len as nat, steps@, old(layers)@),
    ensures
        final(layers)@.len() == len,
        forall|i: int| 0 <= i < len ==> #[trigger] final(layers)@[i] < len,
        least(len as nat, steps@, final(layers)@),
        res is None ==> forall|other: Seq<nat>| !#[trigger] descends(len as nat, steps@, other),
        res == Some(true) ==> room(final(layers)@, len as nat) < room(old(layers)@, len as nat),
        res == Some(false) ==> forall|k: int|
            0 <= k < steps@.len() ==> final(layers)@[(#[trigger] steps@[k]).1 as int]
                < final(layers)@[steps@[k].0 as int],
{
    let mut raised = false;
    let mut k: usize = steps.len();
    while k > 0
        invariant
            k <= steps.len(),
            layers@.len() == len,
            forall|i: int| 0 <= i < len ==> #[trigger] layers@[i] < len,
            forall|k: int|
                0 <= k < steps@.len() ==> (#[trigger] steps@[k]).0 < len && steps@[k].1 < len,
            least(len as nat, steps@, layers@),
            room(layers@, len as nat) <= room(old(layers)@, len as nat),
            raised ==> room(layers@, len as nat) < room(old(layers)@, len as nat),
            !raised ==> forall|j: int|
                k <= j < steps@.len() ==> layers@[(#[trigger] steps@[j]).1 as int]
                    < layers@[steps@[j].0 as int],
        decreases k,
    {
        k = k - 1;
        let (from, to) = steps[k];
        proof {
            assert(steps@[k as int] == (from, to));
        }
        if layers[from] <= layers[to] {
            let ghost before = layers@;
            if layers[to] + 1 >= len {
                proof {
                    assert forall|other: Seq<nat>| !#[trigger] descends(
                        len as nat,
                        steps@,
                        other,
                    ) by {
                        if descends(len as nat, steps@, other) {
                            assert(before[to as int] <= other[to as int]);
                            assert(other[steps@[k as int].1 as int]
                                < other[steps@[k as int].0 as int]);
                            assert(other[from as int] < len);
                        }
                    }
                }
                return None;
            }
            let next: usize = layers[to] + 1;
            layers.set(from, next);
            raised = true;
            proof {
                lemma_raising_takes_room(before, len as nat, from as int, next);
                assert forall|other: Seq<nat>, i: int|
                    #![trigger descends(len as nat, steps@, other), layers@[i]]
                    descends(len as nat, steps@, other) && 0 <= i < len implies layers@[i]
                    <= other[i] by {
                    assert(before[i] <= other[i]);
                    assert(before[to as int] <= other[to as int]);
                    assert(other[steps@[k as int].1 as int] < other[steps@[k as int].0 as int]);
                }
            }
        }
    }
    Some(raised)
}

/// Whether there are layers in which every step leads lower.
pub fn have_layers(len: usize, steps: &Vec<(NodePtr, NodePtr)>) -> (res: bool)
    requires
        forall|k: int|
            0 <= k < steps@.len() ==> (#[trigger] steps@[k]).0 < len && steps@[k].1 < len,
    ensures
        res == exists|layers: Seq<nat>| descends(len as nat, steps@, layers),
{
    let mut layers: Vec<usize> = Vec::new();
    let mut i: usize = 0;
    while i < len
        invariant
            i <= len,
            layers@.len() == i,
            forall|j: int| 0 <= j < i ==> #[trigger] layers@[j] == 0,
        decreases len - i,
    {
        layers.push(0);
        i = i + 1;
    }
    loop
        invariant
            layers@.len() == len,
            forall|i: int| 0 <= i < len ==> #[trigger] layers@[i] < len,
            forall|k: int|
                0 <= k < steps@.len() ==> (#[trigger] steps@[k]).0 < len && steps@[k].1 < len,
            least(len as nat, steps@, layers@),
        decreases room(layers@, len as nat),
    {
        match raise_layers(len, steps, &mut layers) {
            None => {
                return false;
            },
            Some(raised) => {
                if !raised {
                    proof {
                        let found = Seq::new(len as nat, |i: int| layers@[i] as nat);
                        assert(descends(len as nat, steps@, found));
                    }
                    return true;
                }
            },
        }
    }
}

/// Adds the steps from every node of one list to every node of another.
fn push_steps(out: &mut Vec<(NodePtr, NodePtr)>, from: &Vec<NodePtr>, to: &Vec<NodePtr>)
    ensures
        forall|a: NodePtr, b: NodePtr|
            #![trigger final(out)@.contains((a, b))]
            final(out)@.contains((a, b)) <==> old(out)@.contains((a, b)) || from@.contains(a)
                && to@.contains(b),
{
    let ghost start = out@;
    let mut i: usize = 0;
    while i < from.len()
        invariant
            i <= from.len(),
            forall|a: NodePtr, b: NodePtr|
                #![trigger out@.contains((a, b))]
                out@.contains((a, b)) <==> start.contains((a, b)) || from@.take(
                    i as int,
                ).contains(a) && to@.contains(b),
        decreases from.len() - i,
    {
        let ghost mid = out@;
        let mut j: usize = 0;
        while j < to.len()
            invariant
                i < from.len(),
                j <= to.len(),
                forall|a: NodePtr, b: NodePtr|
                    #![trigger out@.contains((a, b))]
                    out@.contains((a, b)) <==> mid.contains((a, b)) || a == from@[i as int]
                        && to@.take(j as int).contains(b),
            decreases to.len() - j,
        {
            let ghost last = out@;
            out.push((from[i], to[j]));
            proof {
                lemma_pushed(last, (from@[i as int], to@[j as int]));
                lemma_pushed(to@.take(j as int), to@[j as int]);
                assert(to@.take(j + 1) =~= to@.take(j as int).push(to@[j as int]));
            }
            j = j + 1;
        }
        proof {
            assert(to@.take(j as int) =~= to@);
            lemma_pushed(from@.take(i as int), from@[i as int]);
            assert(from@.take(i + 1) =~= from@.take(i as int).push(from@[i as int]));
        }
        i = i + 1;
    }
    assert(from@.take(i as int) =~= from@);
}

/// What a list holds after a push.
proof fn lemma_pushed<T>(s: Seq<T>, x: T)
    ensures
        forall|y: T| #[trigger] s.push(x).contains(y) <==> s.contains(y) || y == x,
{
    assert forall|y: T| #[trigger] s.push(x).contains(y) <==> s.contains(y) || y == x by {
        if s.contains(y) {
            let i = choose|i: int| 0 <= i < s.len() && s[i] == y;
            assert(s.push(x)[i] == y);
        }
        assert(s.push(x)[s.len() as int] == x);
        if s.push(x).contains(y) {
            let i = choose|i: int| 0 <= i < s.push(x).len() && s.push(x)[i] == y;
            if i < s.len() {
                assert(s[i] == y);
            }
        }
    }
}

/// The nodes that can be rendered directly below `node`.
pub fn nodes_below(dom: &Dom, node: NodePtr) -> (res: Vec<NodePtr>)
    requires
        node < dom@.len(),
    ensures
        res@ == below(dom@[node as int]),
{
    let mut res = child_nodes(dom, node);
    if let Some(root) = shadow_root(dom, node) {
        res.push(root);
    }
    assert(res@ =~= children_of(dom@[node as int]) + opt_seq(shadow_root_of(dom@[node as int])));
    if node_has_tag(dom, node, "slot") {
        if let Node::Element(el) = dom.node(node) {
            push_all(&mut res, &el.assigned_nodes);
        }
    }
    assert(res@ =~= below(dom@[node as int]));
    res
}

/// The part of [`render_step`] that the nodes before `end` show.
spec fn step_before(d: DomView, end: NodePtr, a: NodePtr, b: NodePtr) -> bool {
    &&& a < d.len()
    &&& a < end && below(d[a as int]).contains(b) || exists|host: NodePtr|
        host < end && may_be_given(d, host, a, b)
}

proof fn lemma_next_steps(d: DomView, end: NodePtr, a: NodePtr, b: NodePtr)
    requires
        closed_links(d),
        end < d.len(),
        end < usize::MAX,
    ensures
        step_before(d, (end + 1) as NodePtr, a, b) <==> step_before(d, end, a, b) || a == end
            && below(d[end as int]).contains(b) || may_be_given(d, end, a, b),
{
    let next = (end + 1) as NodePtr;
    if may_be_given(d, end, a, b) {
        assert(node_ok(d[end as int], d.len()));
        let root = shadow_root_of(d[end as int])->0;
        let slots = slots_in(d, root, d.len());
        lemma_slots_in(d, root, d.len());
        let i = choose|i: int| 0 <= i < slots.len() && slots[i] == a;
        assert(slots[i] < d.len());
        assert(end < next && may_be_given(d, end, a, b));
    }
    if exists|host: NodePtr| host < end && may_be_given(d, host, a, b) {
        let host = choose|host: NodePtr| host < end && may_be_given(d, host, a, b);
        assert(host < next && may_be_given(d, host, a, b));
    }
}

/// The steps of walks over what is rendered. `None` where the slots of a shadow
/// tree cannot be listed, because a node of it is its own descendant.
fn render_steps(dom: &Dom) -> (res: Option<Vec<(NodePtr, NodePtr)>>)
    requires
        dom.wf(),
    ensures
        res is None ==> !renderable(dom@),
        res matches Some(steps) ==> forall|a: NodePtr, b: NodePtr|
            #![trigger steps@.contains((a, b))]
            #![trigger render_step(dom@, a, b)]
            steps@.contains((a, b)) <==> render_step(dom@, a, b),
{
    let mut steps: Vec<(NodePtr, NodePtr)> = Vec::new();
    let mut node: usize = 0;
    while node < dom.len()
        invariant
            dom.wf(),
            node <= dom@.len(),
            forall|a: NodePtr, b: NodePtr|
                #![trigger steps@.contains((a, b))]
                steps@.contains((a, b)) <==> step_before(dom@, node, a, b),
        decreases dom@.len() - node,
    {
        let ghost before = steps@;
        let own = vec![node];
        let kids = nodes_below(dom, node);
        push_steps(&mut steps, &own, &kids);
        let ghost mid = steps@;
        proof {
            assert(own@ =~= seq![node]);
            assert(own@[0] == node);
            assert(node_ok(dom@[node as int], dom@.len()));
        }
        if let Some(root) = shadow_root(dom, node) {
            if !is_finite_from(dom, root, Reach::ElementChildren) {
                proof {
                    if renderable(dom@) {
                        let layers = choose|layers: Seq<nat>| render_layers(dom@, layers);
                        lemma_root_is_lower(dom@, layers, node);
                        lemma_layers_end_children(dom@, layers, root, dom@.len());
                    }
                }
                return None;
            }
            let mut slots: Vec<NodePtr> = Vec::new();
            find_slots(dom, root, &mut slots, Ghost(dom@.len()));
            assert(slots@ =~= slots_in(dom@, root, dom@.len()));
            let light = child_nodes(dom, node);
            push_steps(&mut steps, &slots, &light);
        }
        proof {
            assert forall|a: NodePtr, b: NodePtr|
                #![trigger steps@.contains((a, b))]
                steps@.contains((a, b)) <==> step_before(
                    dom@,
                    (node + 1) as NodePtr,
                    a,
                    b,
                ) by {
                lemma_next_steps(dom@, node, a, b);
                assert(mid.contains((a, b)) <==> before.contains((a, b)) || own@.contains(a)
                    && kids@.contains(b));
                assert(own@.contains(a) <==> a == node);
            }
        }
        node = node + 1;
    }
    proof {
        assert forall|a: NodePtr, b: NodePtr|
            #![trigger steps@.contains((a, b))]
            #![trigger render_step(dom@, a, b)]
            steps@.contains((a, b)) <==> render_step(dom@, a, b) by {
            assert(steps@.contains((a, b)) <==> step_before(dom@, node, a, b));
            if exists|host: NodePtr| may_be_given(dom@, host, a, b) {
                let host = choose|host: NodePtr| may_be_given(dom@, host, a, b);
                assert(host < node && may_be_given(dom@, host, a, b));
            }
        }
    }
    Some(steps)
}

/// Whether all walks over what is rendered end, however light children are
/// distributed meanwhile.
pub fn is_renderable(dom: &Dom) -> (res: bool)
    requires
        dom.wf(),
    ensures
        res == renderable(dom@),
{
    match render_steps(dom) {
        None => false,
        Some(steps) => {
            proof {
                assert forall|k: int| 0 <= k < steps@.len() implies (#[trigger] steps@[k]).0
                    < dom@.len() && steps@[k].1 < dom@.len() by {
                    assert(steps@.contains((steps@[k].0, steps@[k].1)));
                    lemma_step_in_range(dom@, steps@[k].0, steps@[k].1);
                }
                assert forall|layers: Seq<nat>| #[trigger]
                    descends(dom@.len(), steps@, layers) <==> render_layers(dom@, layers) by {
                    if descends(dom@.len(), steps@, layers) {
                        assert forall|a: NodePtr, b: NodePtr| #[trigger]
                            render_step(dom@, a, b) implies layers[b as int]
                            < layers[a as int] by {
                            assert(steps@.contains((a, b)));
                            let k = choose|k: int| 0 <= k < steps@.len() && steps@[k] == (a, b);
                            assert(steps@[k] == (a, b));
                        }
                    }
                    if render_layers(dom@, layers) {
                        assert forall|k: int| 0 <= k < steps@.len() implies layers[(
                        #[trigger] steps@[k]).1 as int] < layers[steps@[k].0 as int] by {
                            assert(steps@.contains((steps@[k].0, steps@[k].1)));
                            assert(render_step(dom@, steps@[k].0, steps@[k].1));
                        }
                    }
                }
            }
            let res = have_layers(dom.len(), &steps);
            proof {
                if res {
                    let layers = choose|layers: Seq<nat>| descends(dom@.len(), steps@, layers);
                    assert(render_layers(dom@, layers));
                }
                if renderable(dom@) {
                    let layers = choose|layers: Seq<nat>| render_layers(dom@, layers);
                    assert(descends(dom@.len(), steps@, layers));
                }
            }
            res
        },
    }
}

/// A step leads from node to node.
proof fn lemma_step_in_range(d: DomView, a: NodePtr, b: NodePtr)
    requires
        closed_links(d),
        render_step(d, a, b),
    ensures
        a < d.len(),
        b < d.len(),
{
    if exists|host: NodePtr| may_be_given(d, host, a, b) {
        let host = choose|host: NodePtr| may_be_given(d, host, a, b);
        let light = children_of(d[host as int]);
        assert(node_ok(d[host as int], d.len()));
        let i = choose|i: int| 0 <= i < light.len() && light[i] == b;
        assert(light[i] < d.len());
    } else {
        let list = below(d[a as int]);
        assert(node_ok(d[a as int], d.len()));
        let i = choose|i: int| 0 <= i < list.len() && list[i] == b;
        assert(list[i] < d.len());
    }
}

/// Whether no node owns itself, directly or through others.
pub fn is_acyclic(dom: &Dom) -> (res: bool)
    requires
        dom.wf(),
    ensures
        res == acyclic(dom@),
{
    let mut steps: Vec<(NodePtr, NodePtr)> = Vec::new();
    let mut node: usize = 0;
    while node < dom.len()
        invariant
            dom.wf(),
            node <= dom@.len(),
            forall|a: NodePtr, b: NodePtr|
                #![trigger steps@.contains((a, b))]
                steps@.contains((a, b)) <==> a < node && owns(dom@, a, b),
        decreases dom@.len() - node,
    {
        let ghost before = steps@;
        let own = vec![node];
        let links = followed_nodes(dom, node, Reach::All);
        push_steps(&mut steps, &own, &links);
        proof {
            assert(own@ =~= seq![node]);
            assert(own@[0] == node);
            assert forall|a: NodePtr, b: NodePtr|
                #![trigger steps@.contains((a, b))]
                steps@.contains((a, b)) <==> a < node + 1 && owns(dom@, a, b) by {
                assert(own@.contains(a) <==> a == node);
                assert(before.contains((a, b)) <==> a < node && owns(dom@, a, b));
            }
        }
        node = node + 1;
    }
    proof {
        assert forall|k: int| 0 <= k < steps@.len() implies (#[trigger] steps@[k]).0 < dom@.len()
            && steps@[k].1 < dom@.len() by {
            let (a, b) = (steps@[k].0, steps@[k].1);
            assert(steps@.contains((a, b)));
            assert(node_ok(dom@[a as int], dom@.len()));
            let list = followed(dom@[a as int], Reach::All);
            let i = choose|i: int| 0 <= i < list.len() && list[i] == b;
            assert(list[i] < dom@.len());
        }
        assert forall|layers: Seq<nat>| #[trigger] descends(dom@.len(), steps@, layers)
            <==> owner_layers(dom@, layers) by {
            if descends(dom@.len(), steps@, layers) {
                assert forall|a: NodePtr, b: NodePtr| #[trigger]
                    owns(dom@, a, b) implies layers[b as int] < layers[a as int] by {
                    assert(steps@.contains((a, b)));
                    let k = choose|k: int| 0 <= k < steps@.len() && steps@[k] == (a, b);
                    assert(steps@[k] == (a, b));
                }
            }
            if owner_layers(dom@, layers) {
                assert forall|k: int| 0 <= k < steps@.len() implies layers[(
                #[trigger] steps@[k]).1 as int] < layers[steps@[k].0 as int] by {
                    assert(steps@.contains((steps@[k].0, steps@[k].1)));
                    assert(owns(dom@, steps@[k].0, steps@[k].1));
                }
            }
        }
    }
    let res = have_layers(dom.len(), &steps);
    proof {
        if res {
            let layers = choose|layers: Seq<nat>| descends(dom@.len(), steps@, layers);
            assert(owner_layers(dom@, layers));
        }
        if acyclic(dom@) {
            let layers = choose|layers: Seq<nat>| owner_layers(dom@, layers);
            assert(descends(dom@.len(), steps@, layers));
        }
    }
    res
}

fn held_within(dom: &Dom, node: NodePtr, x: NodePtr, fuel: usize) -> (res: bool)
    requires
        dom.wf(),
        node < dom@.len(),
    ensures
        res == holds_within(dom@, node, x, fuel as nat),
    decreases fuel,
{
    if node == x {
        return true;
    }
    if fuel == 0 {
        return false;
    }
    let links = followed_nodes(dom, node, Reach::All);
    proof {
        assert(node_ok(dom@[node as int], dom@.len()));
    }
    let mut i: usize = 0;
    while i < links.len()
        invariant
            i <= links.len(),
            dom.wf(),
            fuel > 0,
            node != x,
            node < dom@.len(),
            links@ == followed(dom@[node as int], Reach::All),
            forall|j: int| 0 <= j < links@.len() ==> #[trigger] links@[j] < dom@.len(),
            forall|j: int|
                0 <= j < i ==> !holds_within(dom@, #[trigger] links@[j], x, (fuel - 1) as nat),
        decreases links.len() - i,
    {
        if held_within(dom, links[i], x, fuel - 1) {
            assert(links@.contains(links@[i as int]));
            assert(owns(dom@, node, links@[i as int]));
            return true;
        }
        i = i + 1;
    }
    proof {
        if holds_within(dom@, node, x, fuel as nat) {
            let b = choose|b: NodePtr| #[trigger]
                owns(dom@, node, b) && holds_within(dom@, b, x, (fuel - 1) as nat);
            let j = choose|j: int| 0 <= j < links@.len() && links@[j] == b;
            assert(!holds_within(dom@, links@[j], x, (fuel - 1) as nat));
        }
    }
    false
}

/// Whether `x` is `node` or owned by it, directly or through others.
pub fn is_held(dom: &Dom, node: NodePtr, x: NodePtr) -> (res: bool)
    requires
        dom.wf(),
        finite_from(dom@, node, Reach::All),
    ensures
        res == holds(dom@, node, x),
{
    let res = held_within(dom, node, x, dom.len());
    proof {
        if holds(dom@, node, x) {
            let fuel = choose|fuel: nat| holds_within(dom@, node, x, fuel);
            lemma_holds_ends(dom@, node, x, fuel, dom@.len());
        }
    }
    res
}

} // verus!
