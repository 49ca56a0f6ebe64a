//! What a draft draws.
//!
//! A draft is held to the document that it renders: every node that it creates is
//! that of a node of the document, with the same text or name and attributes, in
//! the namespace that its place asks for, and below it hang the rendered children
//! of that node, in order.

use crate::blitz_document::maps::rendered_children;
use crate::blitz_document::names::{HTML_NS, MATHML_NS, SVG_NS};
use crate::blitz_document::plan::{blank, inner_namespace, known, node_op, opened, plan_children_end,
    plan_ends, plan_shadow_ends, planned, planned_children, planned_shadow, qualified, shadow_op,
    DraftView, Drafted, RenderOpView, RenderRef};
use crate::dom::attributes::in_order;
use crate::dom::node::{assigned_of, closed_links, node_ok, parent_of, with_assigned, DomView,
    NodePtr, NodeView};
use crate::dom::shadow::{distributed, is_root_at, same_but_assigned};
use crate::text::{lowercase, same_ignoring_case};
use vstd::prelude::*;

verus! {

/// Whether an operation creates a node.
pub open spec fn makes(op: RenderOpView) -> bool {
    op is CreateText || op is CreateComment || op is CreateElement
}

/// The operations that create nodes, in order: the first one creates `New(0)`.
pub open spec fn made(ops: Seq<RenderOpView>) -> Seq<RenderOpView> {
    ops.filter(|op: RenderOpView| makes(op))
}

/// What operations append to a node, in order.
pub open spec fn hung(ops: Seq<RenderOpView>, parent: RenderRef) -> Seq<RenderRef>
    decreases ops.len(),
{
    if ops.len() == 0 {
        Seq::empty()
    } else {
        hung(ops.drop_last(), parent) + (match ops.last() {
            RenderOpView::AppendChildren { parent: p, children } => if p == parent {
                children
            } else {
                Seq::empty()
            },
            _ => Seq::empty(),
        })
    }
}

/// Whether a created element is in the right namespace for a place where `ns`
/// surrounds it: `svg` and `math` enter theirs, and others stay in a foreign one.
pub open spec fn named_in(op: RenderOpView, ns: Seq<char>) -> bool {
    op matches RenderOpView::CreateElement { name, attrs } ==> {
        &&& lowercase(name.local) == "svg"@ ==> name.ns == SVG_NS@
        &&& lowercase(name.local) == "math"@ ==> name.ns == MATHML_NS@
        &&& lowercase(name.local) != "svg"@ && lowercase(name.local) != "math"@ ==> name.ns == ns
    }
}

/// Whether `below` is in the right namespace for a child of `above`: that of
/// `above`, unless it enters another, or `above` is a foreign object of SVG.
pub open spec fn namespace_follows(above: RenderOpView, below: RenderOpView) -> bool {
    above matches RenderOpView::CreateElement { name, attrs } && named_in(
        below,
        if name.ns == SVG_NS@ && same_ignoring_case(name.local, "foreignObject"@) {
            HTML_NS@
        } else {
            name.ns
        },
    )
}

/// Whether an operation creates the node of `n`.
pub open spec fn draws(d: DomView, n: NodePtr, op: RenderOpView) -> bool {
    match d[n as int] {
        NodeView::Text { content, parent } => op == RenderOpView::CreateText(content),
        NodeView::Comment { content, parent } => op == RenderOpView::CreateComment,
        NodeView::Document { children, mode } => {
            op matches RenderOpView::CreateElement { name, attrs } && name.local == "div"@
                && attrs.len() == 0
        },
        NodeView::Element(el) => {
            &&& op matches RenderOpView::CreateElement { name, attrs }
            &&& name.prefix is None
            &&& if is_root_at(d, n) {
                name.local == "div"@
            } else {
                name.local == el.tag_name && attrs == qualified(in_order(el.attributes))
            }
        },
    }
}

/// Whether below the node with number `i` hang the rendered children of its node,
/// in order; light children may have been distributed on the way.
pub open spec fn is_filled(d: DomView, to_blitz: Map<usize, usize>, x: DraftView, i: int) -> bool {
    let n = x.created[i];
    if d[n as int] is Text || d[n as int] is Comment {
        hung(x.ops, RenderRef::New(i as usize)).len() == 0
    } else {
        exists|e: DomView| #[trigger]
            same_but_assigned(d, e) && is_hung(
                to_blitz,
                x,
                hung(x.ops, RenderRef::New(i as usize)),
                rendered_children(e, n),
            )
    }
}

/// Whether a list of rendered nodes is that of a list of nodes.
pub open spec fn is_hung(
    to_blitz: Map<usize, usize>,
    x: DraftView,
    refs: Seq<RenderRef>,
    kids: Seq<NodePtr>,
) -> bool {
    &&& refs.len() == kids.len()
    &&& forall|k: int|
        0 <= k < kids.len() ==> known(to_blitz, x, #[trigger] kids[k]) == Some(refs[k])
}

/// Whether the node with number `i` hangs below `parent`, where `ns` surrounds
/// it, or below another created node, in the right namespace for its place.
pub open spec fn hangs(x: DraftView, i: int, parent: RenderRef, ns: Seq<char>) -> bool {
    ||| hung(x.ops, parent).contains(RenderRef::New(i as usize)) && named_in(made(x.ops)[i], ns)
    ||| hangs_inside(x, i)
}

/// Whether the node with number `i` hangs below another created node, in the
/// right namespace for its place.
pub open spec fn hangs_inside(x: DraftView, i: int) -> bool {
    exists|p: int|
        0 <= p < i && #[trigger] hung(x.ops, RenderRef::New(p as usize)).contains(
            RenderRef::New(i as usize),
        ) && namespace_follows(made(x.ops)[p], made(x.ops)[i])
}

spec fn is_ns(ns: Seq<char>) -> bool {
    ns == HTML_NS@ || ns == SVG_NS@ || ns == MATHML_NS@
}

spec fn inner_of(op: RenderOpView) -> Seq<char> {
    match op {
        RenderOpView::CreateElement { name, attrs } => if name.ns == SVG_NS@
            && same_ignoring_case(name.local, "foreignObject"@) {
            HTML_NS@
        } else {
            name.ns
        },
        _ => HTML_NS@,
    }
}

spec fn sound(d: DomView, to_blitz: Map<usize, usize>, w: DraftView) -> bool {
    &&& same_but_assigned(d, w.dom)
    &&& made(w.ops).len() == w.created.len()
    &&& w.created.len() <= d.len()
    &&& forall|n: NodePtr| #[trigger]
        w.pending.contains_key(n) ==> w.pending[n] < w.created.len()
            && w.created[w.pending[n] as int] == n
    &&& forall|i: int|
        0 <= i < w.created.len() ==> w.pending.contains_key(#[trigger] w.created[i])
            && w.pending[w.created[i]] == i && !to_blitz.contains_key(w.created[i])
            && w.created[i] < d.len()
    &&& forall|k: usize|
        k >= w.created.len() ==> (#[trigger] hung(w.ops, RenderRef::New(k))).len() == 0
}

spec fn grows(w: DraftView, x: DraftView) -> bool {
    &&& w.created.len() <= x.created.len()
    &&& forall|i: int| 0 <= i < w.created.len() ==> #[trigger] x.created[i] == w.created[i]
    &&& made(w.ops).len() <= made(x.ops).len()
    &&& forall|i: int| 0 <= i < made(w.ops).len() ==> #[trigger] made(x.ops)[i] == made(w.ops)[i]
    &&& forall|n: NodePtr| #[trigger]
        w.pending.contains_key(n) ==> x.pending.contains_key(n) && x.pending[n] == w.pending[n]
}

/// Whether nothing was appended to what was there, but for `parent`.
spec fn leaves(w: DraftView, x: DraftView, parent: Option<RenderRef>) -> bool {
    forall|r: RenderRef|
        (r matches RenderRef::New(k) ==> k < w.created.len()) && parent != Some(r) ==> #[trigger] hung(
            x.ops,
            r,
        ) == hung(w.ops, r)
}

proof fn lemma_made_push(ops: Seq<RenderOpView>, op: RenderOpView)
    ensures
        made(ops.push(op)) == (if makes(op) {
            made(ops).push(op)
        } else {
            made(ops)
        }),
{
    reveal(Seq::filter);
    assert(ops.push(op).drop_last() =~= ops);
}

proof fn lemma_hung_push(ops: Seq<RenderOpView>, op: RenderOpView, r: RenderRef)
    ensures
        hung(ops.push(op), r) == hung(ops, r) + (match op {
            RenderOpView::AppendChildren { parent, children } => if parent == r {
                children
            } else {
                Seq::empty()
            },
            _ => Seq::empty(),
        }),
        !(op is AppendChildren) ==> hung(ops.push(op), r) == hung(ops, r),
{
    assert(ops.push(op).drop_last() =~= ops);
    assert(hung(ops, r) + Seq::<RenderRef>::empty() =~= hung(ops, r));
}

proof fn lemma_distinct(s: Seq<NodePtr>, len: nat)
    requires
        forall|i: int| 0 <= i < s.len() ==> #[trigger] s[i] < len,
        s.no_duplicates(),
    ensures
        s.len() <= len,
{
    let t = s.map_values(|x: NodePtr| x as int);
    assert(t.no_duplicates()) by {
        assert forall|i: int, j: int| 0 <= i < t.len() && 0 <= j < t.len() && i != j implies t[i]
            != t[j] by {
            assert(s[i] != s[j]);
        }
    }
    t.unique_seq_to_set();
    vstd::set_lib::lemma_int_range(0, len as int);
    assert(t.to_set().subset_of(vstd::set_lib::set_int_range(0, len as int))) by {
        assert forall|x: int| t.to_set().contains(x) implies vstd::set_lib::set_int_range(
            0,
            len as int,
        ).contains(x) by {
            let i = choose|i: int| 0 <= i < t.len() && t[i] == x;
            assert(s[i] < len);
        }
    }
    vstd::set_lib::lemma_len_subset(
        t.to_set(),
        vstd::set_lib::set_int_range(0, len as int),
    );
}

proof fn lemma_distribution_keeps(d: DomView, e: DomView, n: NodePtr)
    requires
        same_but_assigned(d, e),
    ensures
        same_but_assigned(d, distributed(e, n)),
{
    let f = distributed(e, n);
    assert forall|i: int| 0 <= i < d.len() implies #[trigger] f[i] == with_assigned(
        d[i],
        assigned_of(f[i]),
    ) by {
        assert(e[i] == with_assigned(d[i], assigned_of(e[i])));
        assert(f[i] == with_assigned(e[i], assigned_of(f[i])));
    }
}

proof fn lemma_same_root(d: DomView, e: DomView, n: NodePtr)
    requires
        closed_links(d),
        same_but_assigned(d, e),
        n < d.len(),
    ensures
        is_root_at(d, n) == is_root_at(e, n),
        e[n as int] == with_assigned(d[n as int], assigned_of(e[n as int])),
{
    assert(e[n as int] == with_assigned(d[n as int], assigned_of(e[n as int])));
    assert(node_ok(d[n as int], d.len()));
    if let Some(p) = parent_of(d[n as int]) {
        assert(e[p as int] == with_assigned(d[p as int], assigned_of(e[p as int])));
    }
}

/// Opening a node keeps a draft sound.
proof fn lemma_opened(
    d: DomView,
    to_blitz: Map<usize, usize>,
    w: DraftView,
    n: NodePtr,
    op: RenderOpView,
)
    requires
        d.len() <= usize::MAX,
        sound(d, to_blitz, w),
        n < d.len(),
        known(to_blitz, w, n) is None,
        makes(op),
    ensures
        sound(d, to_blitz, opened(w, n, op)),
        grows(w, opened(w, n, op)),
        leaves(w, opened(w, n, op), None),
        made(opened(w, n, op).ops) == made(w.ops).push(op),
        w.created.len() < d.len(),
{
    let x = opened(w, n, op);
    lemma_made_push(w.ops, op);
    assert forall|r: RenderRef| #[trigger] hung(x.ops, r) == hung(w.ops, r) by {
        lemma_hung_push(w.ops, op, r);
    }
    assert(x.created.no_duplicates()) by {
        assert forall|i: int, j: int|
            0 <= i < x.created.len() && 0 <= j < x.created.len() && i != j implies x.created[i]
            != x.created[j] by {
            if i < w.created.len() {
                assert(w.pending.contains_key(w.created[i]));
            }
            if j < w.created.len() {
                assert(w.pending.contains_key(w.created[j]));
            }
        }
    }
    assert forall|i: int| 0 <= i < x.created.len() implies #[trigger] x.created[i] < d.len() by {
        if i < w.created.len() {
            assert(x.created[i] == w.created[i]);
        }
    }
    lemma_distinct(x.created, d.len());
    assert forall|i: int| 0 <= i < x.created.len() implies x.pending.contains_key(
        #[trigger] x.created[i],
    ) && x.pending[x.created[i]] == i && !to_blitz.contains_key(x.created[i]) by {
        if i < w.created.len() {
            assert(x.created[i] == w.created[i]);
            assert(w.pending.contains_key(w.created[i]));
        }
    }
    assert forall|m: NodePtr| #[trigger] x.pending.contains_key(m) implies x.pending[m]
        < x.created.len() && x.created[x.pending[m] as int] == m by {
        if m != n {
            assert(w.pending.contains_key(m));
        }
    }
}

proof fn lemma_known_stays(to_blitz: Map<usize, usize>, w: DraftView, x: DraftView, n: NodePtr)
    requires
        grows(w, x),
        known(to_blitz, w, n) is Some,
    ensures
        known(to_blitz, x, n) == known(to_blitz, w, n),
{
}

proof fn lemma_filled_stays(d: DomView, to_blitz: Map<usize, usize>, w: DraftView, x: DraftView, i: int)
    requires
        grows(w, x),
        0 <= i < w.created.len(),
        hung(x.ops, RenderRef::New(i as usize)) == hung(w.ops, RenderRef::New(i as usize)),
        is_filled(d, to_blitz, w, i),
    ensures
        is_filled(d, to_blitz, x, i),
{
    let n = w.created[i];
    assert(x.created[i] == n);
    if !(d[n as int] is Text || d[n as int] is Comment) {
        let refs = hung(w.ops, RenderRef::New(i as usize));
        let e = choose|e: DomView| #[trigger]
            same_but_assigned(d, e) && is_hung(to_blitz, w, refs, rendered_children(e, n));
        let kids = rendered_children(e, n);
        assert forall|k: int| 0 <= k < kids.len() implies known(to_blitz, x, #[trigger] kids[k])
            == Some(refs[k]) by {
            lemma_known_stays(to_blitz, w, x, kids[k]);
        }
        assert(same_but_assigned(d, e) && is_hung(to_blitz, x, refs, kids));
    }
}

proof fn lemma_hangs_stays(w: DraftView, x: DraftView, i: int, parent: RenderRef, ns: Seq<char>)
    requires
        grows(w, x),
        0 <= i < made(w.ops).len(),
        forall|k: int|
            0 <= k < i ==> hung(x.ops, RenderRef::New(k as usize)) == #[trigger] hung(
                w.ops,
                RenderRef::New(k as usize),
            ) || parent == RenderRef::New(k as usize),
        forall|r: RenderRef|
            hung(w.ops, parent).contains(r) ==> #[trigger] hung(x.ops, parent).contains(r),
        hangs(w, i, parent, ns),
    ensures
        hangs(x, i, parent, ns),
{
    let me = RenderRef::New(i as usize);
    assert(made(x.ops)[i] == made(w.ops)[i]);
    if hung(w.ops, parent).contains(me) && named_in(made(w.ops)[i], ns) {
        assert(hung(x.ops, parent).contains(me));
    } else {
        let p = choose|p: int|
            0 <= p < i && #[trigger] hung(w.ops, RenderRef::New(p as usize)).contains(me)
                && namespace_follows(made(w.ops)[p], made(w.ops)[i]);
        assert(made(x.ops)[p] == made(w.ops)[p]);
        if parent == RenderRef::New(p as usize) {
            assert(hung(x.ops, parent).contains(me));
        }
        assert(hung(x.ops, RenderRef::New(p as usize)).contains(me));
    }
}

spec fn all_filled(d: DomView, to_blitz: Map<usize, usize>, x: DraftView, from: nat) -> bool {
    forall|i: int|
        from <= i < x.created.len() ==> is_filled(d, to_blitz, x, i) && draws(
            d,
            #[trigger] x.created[i],
            made(x.ops)[i],
        )
}

proof fn lemma_div()
    ensures
        lowercase("div"@) != "svg"@,
        lowercase("div"@) != "math"@,
        !same_ignoring_case("div"@, "foreignObject"@),
{
    reveal_strlit("div");
    reveal_strlit("svg");
    reveal_strlit("math");
    reveal_strlit("foreignObject");
    assert(lowercase("div"@).len() == 3);
    assert(lowercase("foreignObject"@).len() == 13);
    assert(lowercase("div"@)[0] == 'd');
}

proof fn lemma_namespaces()
    ensures
        HTML_NS@ != SVG_NS@,
        HTML_NS@ != MATHML_NS@,
        SVG_NS@ != MATHML_NS@,
        "svg"@ != "math"@,
{
    reveal_strlit("http://www.w3.org/1999/xhtml");
    reveal_strlit("http://www.w3.org/2000/svg");
    reveal_strlit("http://www.w3.org/1998/Math/MathML");
    reveal_strlit("svg");
    reveal_strlit("math");
    assert("svg"@.len() == 3);
    assert("math"@.len() == 4);
    assert(HTML_NS@.len() == 28);
    assert(SVG_NS@.len() == 26);
    assert(MATHML_NS@.len() == 34);
}

/// What holds of a draft that went on from `w` to `x` by rendering `n`.
spec fn drew(
    d: DomView,
    to_blitz: Map<usize, usize>,
    w: DraftView,
    x: Drafted,
    n: NodePtr,
    ns: Seq<char>,
) -> bool {
    let first = w.created.len() as int;
    &&& sound(d, to_blitz, x.draft)
    &&& grows(w, x.draft)
    &&& leaves(w, x.draft, None)
    &&& known(to_blitz, x.draft, n) == Some(x.node)
    &&& all_filled(d, to_blitz, x.draft, w.created.len())
    &&& if known(to_blitz, w, n) is Some {
        x.draft == w
    } else {
        &&& x.node == RenderRef::New(first as usize)
        &&& first < x.draft.created.len()
        &&& x.draft.created[first] == n
        &&& named_in(made(x.draft.ops)[first], ns)
        &&& forall|i: int|
            first < i < x.draft.created.len() ==> #[trigger] hangs(
                x.draft,
                i,
                RenderRef::New(first as usize),
                inner_of(made(x.draft.ops)[first]),
            )
    }
}

proof fn lemma_drew_below(
    d: DomView,
    to_blitz: Map<usize, usize>,
    w: DraftView,
    n: NodePtr,
    op: RenderOpView,
    ns: Seq<char>,
    inner: Seq<char>,
    fuel: nat,
)
    requires
        closed_links(d),
        d.len() <= usize::MAX,
        sound(d, to_blitz, w),
        n < d.len(),
        known(to_blitz, w, n) is None,
        makes(op),
        !(d[n as int] is Text || d[n as int] is Comment),
        draws(d, n, op),
        named_in(op, ns),
        op is CreateElement,
        inner_of(op) == inner,
        is_ns(inner),
        ({
            let e = opened(w, n, op);
            plan_children_end(
                to_blitz,
                DraftView { dom: distributed(w.dom, n), ..e },
                RenderRef::New(w.created.len() as usize),
                rendered_children(w.dom, n),
                inner,
                fuel,
            )
        }),
        fuel > 0,
    ensures
        ({
            let e = opened(w, n, op);
            let node = RenderRef::New(w.created.len() as usize);
            let x = planned_children(
                to_blitz,
                DraftView { dom: distributed(w.dom, n), ..e },
                node,
                rendered_children(w.dom, n),
                inner,
                fuel,
            );
            drew(d, to_blitz, w, Drafted { draft: x, node }, n, ns)
        }),
    decreases fuel, 1nat, 0nat,
{
    let o = opened(w, n, op);
    let e = DraftView { dom: distributed(w.dom, n), ..o };
    let first = w.created.len() as int;
    let node = RenderRef::New(first as usize);
    let kids = rendered_children(w.dom, n);
    lemma_opened(d, to_blitz, w, n, op);
    lemma_distribution_keeps(d, w.dom, n);
    assert(sound(d, to_blitz, e));
    lemma_planned_children(d, to_blitz, e, node, kids, inner, fuel);
    let x = planned_children(to_blitz, e, node, kids, inner, fuel);
    assert(made(x.ops)[first] == made(e.ops)[first]);
    assert(made(x.ops)[first] == op);
    assert(x.created[first] == e.created[first]);
    lemma_hung_push(w.ops, op, node);
    assert(hung(w.ops, node).len() == 0);
    let refs = hung(x.ops, node);
    assert(is_hung(to_blitz, x, refs, kids));
    assert(same_but_assigned(d, w.dom) && is_hung(to_blitz, x, refs, rendered_children(w.dom, n)));
    assert(is_filled(d, to_blitz, x, first));
    assert forall|i: int| first <= i < x.created.len() implies is_filled(d, to_blitz, x, i)
        && draws(d, #[trigger] x.created[i], made(x.ops)[i]) by {
        if i > first {
            assert(is_filled(d, to_blitz, x, i) && draws(d, x.created[i], made(x.ops)[i]));
        }
    }
    assert forall|r: RenderRef|
        (r matches RenderRef::New(k) ==> k < w.created.len()) implies #[trigger] hung(x.ops, r)
        == hung(w.ops, r) by {
        assert(hung(x.ops, r) == hung(e.ops, r));
        assert(hung(o.ops, r) == hung(w.ops, r));
    }
    assert forall|m: NodePtr| #[trigger] w.pending.contains_key(m) implies x.pending.contains_key(m)
        && x.pending[m] == w.pending[m] by {
        assert(e.pending.contains_key(m));
    }
    assert forall|i: int| 0 <= i < w.created.len() implies #[trigger] x.created[i]
        == w.created[i] by {
        assert(x.created[i] == e.created[i]);
    }
    assert forall|i: int| 0 <= i < made(w.ops).len() implies #[trigger] made(x.ops)[i] == made(
        w.ops,
    )[i] by {
        assert(made(x.ops)[i] == made(e.ops)[i]);
    }
    assert(e.pending.contains_key(n));
    assert(x.pending[n] == first as usize);
}

proof fn lemma_planned_shadow(
    d: DomView,
    to_blitz: Map<usize, usize>,
    w: DraftView,
    n: NodePtr,
    ns: Seq<char>,
    mode: Seq<char>,
    fuel: nat,
)
    requires
        closed_links(d),
        d.len() <= usize::MAX,
        sound(d, to_blitz, w),
        is_ns(ns),
        is_root_at(w.dom, n),
        plan_shadow_ends(to_blitz, w, n, ns, mode, fuel),
    ensures
        drew(d, to_blitz, w, planned_shadow(to_blitz, w, n, ns, mode, fuel), n, ns),
    decreases fuel, 2nat, 0nat,
{
    if known(to_blitz, w, n) is None {
        lemma_same_root(d, w.dom, n);
        lemma_div();
        lemma_namespaces();
        let op = shadow_op(w.dom, n, ns, mode);
        lemma_drew_below(d, to_blitz, w, n, op, ns, ns, fuel);
    }
}

proof fn lemma_planned(
    d: DomView,
    to_blitz: Map<usize, usize>,
    w: DraftView,
    n: NodePtr,
    ns: Seq<char>,
    fuel: nat,
)
    requires
        closed_links(d),
        d.len() <= usize::MAX,
        sound(d, to_blitz, w),
        is_ns(ns),
        plan_ends(to_blitz, w, n, ns, fuel),
    ensures
        drew(d, to_blitz, w, planned(to_blitz, w, n, ns, fuel), n, ns),
    decreases fuel, 3nat, 0nat,
{
    if known(to_blitz, w, n) is None {
        lemma_same_root(d, w.dom, n);
        if is_root_at(w.dom, n) {
            lemma_planned_shadow(d, to_blitz, w, n, ns, "open"@, fuel);
        } else {
            lemma_div();
            lemma_namespaces();
            let op = node_op(w.dom[n as int], ns);
            if w.dom[n as int] is Text || w.dom[n as int] is Comment {
                lemma_opened(d, to_blitz, w, n, op);
                let x = opened(w, n, op);
                let first = w.created.len() as int;
                assert(hung(x.ops, RenderRef::New(first as usize)) == hung(
                    w.ops,
                    RenderRef::New(first as usize),
                )) by {
                    lemma_hung_push(w.ops, op, RenderRef::New(first as usize));
                }
                assert(is_filled(d, to_blitz, x, first));
                assert(draws(d, x.created[first], made(x.ops)[first]));
            } else {
                lemma_drew_below(
                    d,
                    to_blitz,
                    w,
                    n,
                    op,
                    ns,
                    inner_namespace(w.dom[n as int], ns),
                    fuel,
                );
            }
        }
    }
}

proof fn lemma_planned_children(
    d: DomView,
    to_blitz: Map<usize, usize>,
    w: DraftView,
    parent: RenderRef,
    kids: Seq<NodePtr>,
    ns: Seq<char>,
    fuel: nat,
)
    requires
        closed_links(d),
        d.len() <= usize::MAX,
        sound(d, to_blitz, w),
        is_ns(ns),
        parent matches RenderRef::New(p) ==> p < w.created.len(),
        plan_children_end(to_blitz, w, parent, kids, ns, fuel),
        fuel > 0,
    ensures
        ({
            let x = planned_children(to_blitz, w, parent, kids, ns, fuel);
            let before = hung(w.ops, parent).len() as int;
            &&& sound(d, to_blitz, x)
            &&& grows(w, x)
            &&& leaves(w, x, Some(parent))
            &&& all_filled(d, to_blitz, x, w.created.len())
            &&& hung(x.ops, parent).len() == before + kids.len()
            &&& hung(x.ops, parent).take(before) == hung(w.ops, parent)
            &&& is_hung(to_blitz, x, hung(x.ops, parent).skip(before), kids)
            &&& forall|i: int|
                w.created.len() <= i < x.created.len() ==> #[trigger] hangs(x, i, parent, ns)
        }),
    decreases fuel, 0nat, kids.len(),
{
    let x = planned_children(to_blitz, w, parent, kids, ns, fuel);
    let before = hung(w.ops, parent).len() as int;
    if kids.len() == 0 {
        assert(hung(x.ops, parent).take(before) =~= hung(w.ops, parent));
    } else {
        let front = kids.drop_last();
        let kid = kids.last();
        let less = (fuel - 1) as nat;
        lemma_planned_children(d, to_blitz, w, parent, front, ns, fuel);
        let u = planned_children(to_blitz, w, parent, front, ns, fuel);
        lemma_planned(d, to_blitz, u, kid, ns, less);
        let v = planned(to_blitz, u, kid, ns, less);
        let op = RenderOpView::AppendChildren { parent, children: seq![v.node] };
        let y = v.draft;
        lemma_made_push(y.ops, op);
        assert forall|r: RenderRef| r != parent implies #[trigger] hung(x.ops, r) == hung(
            y.ops,
            r,
        ) by {
            lemma_hung_push(y.ops, op, r);
            assert(hung(y.ops, r) + Seq::<RenderRef>::empty() =~= hung(y.ops, r));
        }
        lemma_hung_push(y.ops, op, parent);
        assert(hung(y.ops, parent) == hung(u.ops, parent));
        let now = hung(x.ops, parent);
        assert(now =~= hung(u.ops, parent).push(v.node));
        assert(now.take(before) =~= hung(u.ops, parent).take(before));
        let tail = now.skip(before);
        let older = hung(u.ops, parent).skip(before);
        assert(is_hung(to_blitz, x, tail, kids)) by {
            assert forall|k: int| 0 <= k < kids.len() implies known(to_blitz, x, #[trigger] kids[k])
                == Some(tail[k]) by {
                if k < front.len() {
                    assert(kids[k] == front[k]);
                    assert(known(to_blitz, u, front[k]) == Some(older[k]));
                    lemma_known_stays(to_blitz, u, y, front[k]);
                }
            }
        }
        assert(grows(w, x));
        assert(sound(d, to_blitz, x)) by {
            assert forall|k: usize| k >= x.created.len() implies (
            #[trigger] hung(x.ops, RenderRef::New(k))).len() == 0 by {
                assert(hung(y.ops, RenderRef::New(k)).len() == 0);
            }
        }
        assert forall|r: RenderRef|
            (r matches RenderRef::New(k) ==> k < w.created.len()) && r
                != parent implies #[trigger] hung(x.ops, r) == hung(w.ops, r) by {
            assert(hung(x.ops, r) == hung(y.ops, r));
            assert(hung(y.ops, r) == hung(u.ops, r));
        }
        assert forall|i: int| w.created.len() <= i < x.created.len() implies is_filled(
            d,
            to_blitz,
            x,
            i,
        ) && draws(d, #[trigger] x.created[i], made(x.ops)[i]) by {
            let me = RenderRef::New(i as usize);
            assert(me != parent);
            assert(hung(x.ops, me) == hung(y.ops, me));
            if i < u.created.len() {
                assert(is_filled(d, to_blitz, u, i) && draws(d, u.created[i], made(u.ops)[i]));
                assert(hung(y.ops, me) == hung(u.ops, me));
                lemma_filled_stays(d, to_blitz, u, y, i);
            } else {
                assert(is_filled(d, to_blitz, y, i) && draws(d, y.created[i], made(y.ops)[i]));
            }
            lemma_filled_stays(d, to_blitz, y, x, i);
        }
        assert forall|i: int| w.created.len() <= i < x.created.len() implies #[trigger] hangs(
            x,
            i,
            parent,
            ns,
        ) by {
            let me = RenderRef::New(i as usize);
            if i < u.created.len() {
                assert(hangs(u, i, parent, ns));
                assert forall|k: int| 0 <= k < i implies hung(x.ops, RenderRef::New(k as usize))
                    == #[trigger] hung(u.ops, RenderRef::New(k as usize)) || parent
                    == RenderRef::New(k as usize) by {
                    let r = RenderRef::New(k as usize);
                    if r != parent {
                        assert(hung(x.ops, r) == hung(y.ops, r));
                        assert(hung(y.ops, r) == hung(u.ops, r));
                    }
                }
                assert forall|r: RenderRef|
                    hung(u.ops, parent).contains(r) implies #[trigger] hung(x.ops, parent).contains(
                    r,
                ) by {
                    let k = choose|k: int|
                        0 <= k < hung(u.ops, parent).len() && hung(u.ops, parent)[k] == r;
                    assert(now[k] == r);
                }
                lemma_hangs_stays(u, x, i, parent, ns);
            } else if i == u.created.len() {
                assert(now[now.len() - 1] == me);
                assert(now.contains(me));
                assert(made(x.ops)[i] == made(y.ops)[i]);
            } else {
                let first = u.created.len() as int;
                let top = RenderRef::New(first as usize);
                assert(hangs(y, i, top, inner_of(made(y.ops)[first])));
                assert(top != parent);
                assert(draws(d, y.created[first], made(y.ops)[first]));
                if hung(y.ops, top).contains(me) && named_in(
                    made(y.ops)[i],
                    inner_of(made(y.ops)[first]),
                ) {
                    assert(hung(x.ops, top) == hung(y.ops, top));
                    assert(hung(y.ops, top).len() > 0);
                    assert(is_filled(d, to_blitz, y, first));
                    assert(namespace_follows(made(x.ops)[first], made(x.ops)[i]));
                    assert(hung(x.ops, RenderRef::New(first as usize)).contains(me));
                } else {
                    let p = choose|p: int|
                        0 <= p < i && #[trigger] hung(y.ops, RenderRef::New(p as usize)).contains(
                            me,
                        ) && namespace_follows(made(y.ops)[p], made(y.ops)[i]);
                    let r = RenderRef::New(p as usize);
                    if r == parent {
                        let k = choose|k: int|
                            0 <= k < hung(y.ops, parent).len() && hung(y.ops, parent)[k] == me;
                        assert(now[k] == me);
                    } else {
                        assert(hung(x.ops, r) == hung(y.ops, r));
                    }
                    assert(hung(x.ops, RenderRef::New(p as usize)).contains(me));
                }
            }
        }
    }
}

/// The draft of a whole document.
pub open spec fn whole_plan(d: DomView, root: NodePtr) -> DraftView {
    planned_children(
        map![root => 0usize],
        blank(distributed(d, root)),
        RenderRef::Existing(0),
        rendered_children(d, root),
        HTML_NS@,
        d.len(),
    )
}

/// Whether the document can be drafted.
pub open spec fn has_whole_plan(d: DomView, root: NodePtr) -> bool {
    &&& closed_links(d)
    &&& root < d.len() <= usize::MAX
    &&& plan_children_end(
        map![root => 0usize],
        blank(distributed(d, root)),
        RenderRef::Existing(0),
        rendered_children(d, root),
        HTML_NS@,
        d.len(),
    )
}

proof fn lemma_blank(d: DomView, e: DomView, to_blitz: Map<usize, usize>)
    requires
        same_but_assigned(d, e),
    ensures
        sound(d, to_blitz, blank(e)),
{
    reveal(Seq::filter);
    let none = Seq::<RenderOpView>::empty();
    assert(made(none) =~= none);
    assert forall|r: RenderRef| (#[trigger] hung(none, r)).len() == 0 by {}
}

/// The draft of a document draws it. Below the document node hang its rendered
/// children. Every node of the document is created at most once, by an operation
/// that gives it its text, or its name and attributes; below it hang its own
/// rendered children, in order; and it hangs somewhere, in the right namespace
/// for its place.
pub proof fn law_plan_draws_the_document(d: DomView, root: NodePtr)
    requires
        has_whole_plan(d, root),
    ensures
        ({
            let x = whole_plan(d, root);
            let to_blitz = map![root => 0usize];
            &&& is_hung(
                to_blitz,
                x,
                hung(x.ops, RenderRef::Existing(0)),
                rendered_children(d, root),
            )
            &&& made(x.ops).len() == x.created.len()
            &&& x.created.no_duplicates()
            &&& x.created.len() <= d.len()
            &&& forall|i: int|
                0 <= i < x.created.len() ==> {
                    &&& draws(d, #[trigger] x.created[i], made(x.ops)[i])
                    &&& is_filled(d, to_blitz, x, i)
                    &&& hangs(x, i, RenderRef::Existing(0), HTML_NS@)
                }
        }),
{
    let x = whole_plan(d, root);
    let to_blitz = map![root => 0usize];
    let w = blank(distributed(d, root));
    assert(same_but_assigned(d, d)) by {
        assert forall|i: int| 0 <= i < d.len() implies #[trigger] d[i] == with_assigned(
            d[i],
            assigned_of(d[i]),
        ) by {}
    }
    lemma_distribution_keeps(d, d, root);
    lemma_blank(d, w.dom, to_blitz);
    lemma_planned_children(
        d,
        to_blitz,
        w,
        RenderRef::Existing(0),
        rendered_children(d, root),
        HTML_NS@,
        d.len(),
    );
    let refs = hung(x.ops, RenderRef::Existing(0));
    assert(hung(w.ops, RenderRef::Existing(0)).len() == 0);
    assert(refs.skip(0) =~= refs);
    assert forall|i: int, j: int|
        0 <= i < x.created.len() && 0 <= j < x.created.len() && i != j implies x.created[i]
        != x.created[j] by {
        assert(x.pending[x.created[i]] == i);
        assert(x.pending[x.created[j]] == j);
    }
    assert forall|i: int| 0 <= i < x.created.len() implies {
        &&& draws(d, #[trigger] x.created[i], made(x.ops)[i])
        &&& is_filled(d, to_blitz, x, i)
        &&& hangs(x, i, RenderRef::Existing(0), HTML_NS@)
    } by {
        assert(hangs(x, i, RenderRef::Existing(0), HTML_NS@));
    }
}

/// The draft of a single node, with which changes are carried over, draws it and
/// everything rendered below it that is not rendered yet.
pub proof fn law_plan_draws_the_node(
    d: DomView,
    to_blitz: Map<usize, usize>,
    n: NodePtr,
    ns: Seq<char>,
)
    requires
        closed_links(d),
        d.len() <= usize::MAX,
        plan_ends(to_blitz, blank(d), n, ns, d.len()),
        ns == HTML_NS@ || ns == SVG_NS@ || ns == MATHML_NS@,
        !to_blitz.contains_key(n),
    ensures
        ({
            let x = planned(to_blitz, blank(d), n, ns, d.len()).draft;
            &&& planned(to_blitz, blank(d), n, ns, d.len()).node == RenderRef::New(0)
            &&& x.created.len() > 0
            &&& x.created[0] == n
            &&& named_in(made(x.ops)[0], ns)
            &&& made(x.ops).len() == x.created.len()
            &&& forall|i: int|
                0 <= i < x.created.len() ==> draws(d, #[trigger] x.created[i], made(x.ops)[i])
                    && is_filled(d, to_blitz, x, i)
            &&& forall|i: int| 0 < i < x.created.len() ==> #[trigger] hangs_inside(x, i)
        }),
{
    assert(same_but_assigned(d, d)) by {
        assert forall|i: int| 0 <= i < d.len() implies #[trigger] d[i] == with_assigned(
            d[i],
            assigned_of(d[i]),
        ) by {}
    }
    lemma_blank(d, d, to_blitz);
    lemma_planned(d, to_blitz, blank(d), n, ns, d.len());
    let x = planned(to_blitz, blank(d), n, ns, d.len()).draft;
    let top = RenderRef::New(0);
    assert(x.created.len() > 0);
    assert forall|i: int| 0 < i < x.created.len() implies #[trigger] hangs_inside(x, i) by {
        let me = RenderRef::New(i as usize);
        assert(hangs(x, i, top, inner_of(made(x.ops)[0])));
        assert(is_filled(d, to_blitz, x, 0) && draws(d, x.created[0], made(x.ops)[0]));
        if hung(x.ops, top).contains(me) && named_in(made(x.ops)[i], inner_of(made(x.ops)[0])) {
            assert(hung(x.ops, RenderRef::New(0int as usize)).contains(me));
            assert(namespace_follows(made(x.ops)[0], made(x.ops)[i]));
        }
    }
}

/// Whether `path` leads down the drawn tree, and each node on it hangs nowhere
/// else.
pub open spec fn leads_down(x: DraftView, path: Seq<int>) -> bool {
    &&& forall|k: int| 0 <= k < path.len() ==> 0 <= #[trigger] path[k] < x.created.len()
    &&& forall|k: int, r: RenderRef|
        0 < k < path.len() && #[trigger] hung(x.ops, r).contains(
            RenderRef::New(#[trigger] path[k] as usize),
        ) ==> r == RenderRef::New(path[k - 1] as usize)
}

/// In the draft of a document, elements below an `svg` element are in the SVG
/// namespace, at every depth, unless a `foreignObject` or a `math` element comes
/// in between. The same holds for `math` and MathML, where only `svg` leads out.
pub proof fn law_foreign_elements_stay_foreign(d: DomView, root: NodePtr, path: Seq<int>)
    requires
        has_whole_plan(d, root),
        path.len() > 0,
        leads_down(whole_plan(d, root), path),
    ensures
        ({
            let ops = made(whole_plan(d, root).ops);
            let local = |k: int| ops[path[k]]->CreateElement_name.local;
            let last = ops[path.last()];
            &&& ops[path[0]] is CreateElement && lowercase(local(0)) == "svg"@ && (forall|k: int|
                0 < k < path.len() ==> lowercase(#[trigger] local(k)) != "math"@) && (forall|k: int|
                0 <= k < path.len() - 1 ==> !same_ignoring_case(
                    #[trigger] local(k),
                    "foreignObject"@,
                )) && last is CreateElement ==> last->CreateElement_name.ns == SVG_NS@
            &&& ops[path[0]] is CreateElement && lowercase(local(0)) == "math"@ && (forall|k: int|
                0 < k < path.len() ==> lowercase(#[trigger] local(k)) != "svg"@) && last
                is CreateElement ==> last->CreateElement_name.ns == MATHML_NS@
        }),
    decreases path.len(),
{
    let x = whole_plan(d, root);
    let ops = made(x.ops);
    let local = |k: int| ops[path[k]]->CreateElement_name.local;
    let last = ops[path.last()];
    law_plan_draws_the_document(d, root);
    lemma_namespaces();
    let i = path.last();
    assert(path[path.len() - 1] == i);
    assert(draws(d, x.created[i], ops[i]));
    assert(hangs(x, i, RenderRef::Existing(0), HTML_NS@));
    if path.len() > 1 {
        let front = path.drop_last();
        assert forall|k: int| 0 <= k < front.len() implies 0 <= #[trigger] front[k]
            < x.created.len() by {
            assert(front[k] == path[k]);
        }
        assert forall|k: int, r: RenderRef|
            0 < k < front.len() && #[trigger] hung(x.ops, r).contains(
                RenderRef::New(#[trigger] front[k] as usize),
            ) implies r == RenderRef::New(front[k - 1] as usize) by {
            assert(front[k] == path[k] && front[k - 1] == path[k - 1]);
        }
        law_foreign_elements_stay_foreign(d, root, front);
        let upper = |k: int| ops[front[k]]->CreateElement_name.local;
        assert forall|k: int| 0 <= k < front.len() implies #[trigger] upper(k) == local(k) by {
            assert(front[k] == path[k]);
        }
        assert(front[0] == path[0]);
        let up = front.last();
        assert(up == path[path.len() - 2]);
        let me = RenderRef::New(i as usize);
        assert(!hung(x.ops, RenderRef::Existing(0)).contains(me));
        let p = choose|p: int|
            0 <= p < i && #[trigger] hung(x.ops, RenderRef::New(p as usize)).contains(me)
                && namespace_follows(ops[p], ops[i]);
        assert(RenderRef::New(p as usize) == RenderRef::New(up as usize));
        assert(p == up);
        assert(local(path.len() - 1) == last->CreateElement_name.local);
        assert(local(path.len() - 2) == ops[up]->CreateElement_name.local);
        lemma_math_is_no_svg(ops[up], ops[i]);
    } else {
        assert(path[0] == i);
        assert(local(0) == last->CreateElement_name.local);
    }
}

proof fn lemma_math_is_no_svg(above: RenderOpView, below: RenderOpView)
    requires
        namespace_follows(above, below),
    ensures
        ({
            let up = above->CreateElement_name;
            let name = below->CreateElement_name;
            &&& below is CreateElement && up.ns == MATHML_NS@ && lowercase(name.local) != "svg"@
                ==> name.ns == MATHML_NS@
            &&& below is CreateElement && up.ns == SVG_NS@ && lowercase(name.local) != "math"@
                && !same_ignoring_case(up.local, "foreignObject"@) ==> name.ns == SVG_NS@
        }),
{
    lemma_namespaces();
}

} // verus!
