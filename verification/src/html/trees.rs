//! What tree building gives.

use crate::dom::node::{children_of, closed_links, finite_from, is_container, node_ok, rechilded,
    with_children, DomView, NodePtr, NodeView, Reach};
use crate::dom::routes::{arrival, child_lists};
use crate::html::sink::{appended, attribute_list, completed, is_blank_text, keeps_space,
    kept_children, law_pruning_leaves_no_blank_text, merges, pruned, pruned_all, put_before,
    taken_away, tidy, unblanked, SinkView};
use crate::js::mutation::{lemma_filter_is_without, lemma_first_index};
use crate::text::is_space;
use vstd::prelude::*;

verus! {

/// Whether a node is text that is white space throughout.
pub open spec fn is_white(n: NodeView) -> bool {
    n matches NodeView::Text { content, parent } && forall|i: int|
        0 <= i < content.len() ==> is_space(#[trigger] content[i])
}

/// Whether white space means something in an element.
pub open spec fn is_verbatim(n: NodeView) -> bool {
    n matches NodeView::Element(el) && (el.tag_name == "script"@ || el.tag_name == "style"@
        || el.tag_name == "textarea"@ || el.tag_name == "title"@)
}

/// The nodes of a list without the white text.
pub open spec fn without_white(d: DomView, kids: Seq<NodePtr>) -> Seq<NodePtr> {
    kids.filter(|x: NodePtr| !is_white(d[x as int]))
}

/// Whether `e` is `d` but for white text that some elements lost.
pub open spec fn lost_white_alone(d: DomView, e: DomView) -> bool {
    &&& e.len() == d.len()
    &&& forall|m: int|
        0 <= m < d.len() ==> {
            &&& (#[trigger] e[m]) == with_children(d[m], children_of(e[m]))
            &&& children_of(e[m]) == children_of(d[m]) || (!is_verbatim(d[m]) && children_of(e[m])
                == without_white(d, children_of(d[m])))
        }
}

proof fn lemma_unblanked(d: DomView, kids: Seq<NodePtr>)
    ensures
        unblanked(d, kids) == without_white(d, kids),
    decreases kids.len(),
{
    reveal(Seq::filter);
    if kids.len() > 0 {
        lemma_unblanked(d, kids.drop_last());
    }
}

proof fn lemma_same_white(d: DomView, e: DomView, kids: Seq<NodePtr>)
    requires
        lost_white_alone(d, e),
        forall|i: int| 0 <= i < kids.len() ==> #[trigger] kids[i] < d.len(),
    ensures
        without_white(d, kids) == without_white(e, kids),
        without_white(d, without_white(d, kids)) == without_white(d, kids),
        forall|i: int|
            0 <= i < without_white(d, kids).len() ==> (#[trigger] without_white(d, kids)[i])
                < d.len(),
    decreases kids.len(),
{
    reveal(Seq::filter);
    if kids.len() > 0 {
        let front = kids.drop_last();
        assert forall|i: int| 0 <= i < front.len() implies #[trigger] front[i] < d.len() by {
            assert(front[i] == kids[i]);
        }
        lemma_same_white(d, e, front);
        let last = kids.last();
        assert(kids[kids.len() - 1] < d.len());
        assert(is_white(d[last as int]) == is_white(e[last as int])) by {
            assert(e[last as int] == with_children(d[last as int], children_of(e[last as int])));
        }
        if !is_white(d[last as int]) {
            let all = without_white(d, kids);
            assert(all == without_white(d, front).push(last));
            assert(all.drop_last() =~= without_white(d, front));
        }
    }
}

proof fn lemma_white_twice(a: DomView, b: DomView, c: DomView)
    requires
        closed_links(a),
        lost_white_alone(a, b),
        lost_white_alone(b, c),
    ensures
        lost_white_alone(a, c),
{
    assert forall|m: int| 0 <= m < a.len() implies {
        &&& (#[trigger] c[m]) == with_children(a[m], children_of(c[m]))
        &&& children_of(c[m]) == children_of(a[m]) || (!is_verbatim(a[m]) && children_of(c[m])
            == without_white(a, children_of(a[m])))
    } by {
        let kids = children_of(a[m]);
        assert(node_ok(a[m], a.len()));
        assert(b[m] == with_children(a[m], children_of(b[m])));
        assert(c[m] == with_children(b[m], children_of(c[m])));
        assert forall|i: int| 0 <= i < kids.len() implies #[trigger] kids[i] < a.len() by {}
        lemma_same_white(a, b, kids);
        lemma_same_white(a, b, without_white(a, kids));
    }
}

proof fn lemma_closed_after_loss(d: DomView, e: DomView)
    requires
        closed_links(d),
        lost_white_alone(d, e),
    ensures
        closed_links(e),
{
    assert forall|m: int| 0 <= m < e.len() implies node_ok(
        #[trigger] e[m],
        e.len(),
    ) by {
        let kids = children_of(d[m]);
        assert(node_ok(d[m], d.len()));
        assert(e[m] == with_children(d[m], children_of(e[m])));
        assert forall|i: int| 0 <= i < kids.len() implies #[trigger] kids[i] < d.len() by {}
        lemma_same_white(d, e, kids);
    }
}

/// Pruning takes white text out of child lists and nothing else: the other
/// children stay in their order, elements in which white space means something
/// keep all of theirs, and no node changes in any other way.
pub proof fn law_pruning_drops_white_text_alone(d: DomView, n: NodePtr, told: bool, fuel: nat)
    requires
        closed_links(d),
        n < d.len(),
    ensures
        lost_white_alone(d, pruned(d, n, told, fuel)),
    decreases fuel, 1nat, 0nat,
{
    assert forall|m: int| 0 <= m < d.len() implies (#[trigger] d[m]) == with_children(
        d[m],
        children_of(d[m]),
    ) by {}
    assert(lost_white_alone(d, d));
    if is_container(d[n as int]) {
        let all = children_of(d[n as int]);
        let kids = kept_children(d, n, told);
        let e = rechilded(d, n, kids);
        lemma_unblanked(d, all);
        assert(node_ok(d[n as int], d.len()));
        assert forall|i: int| 0 <= i < all.len() implies #[trigger] all[i] < d.len() by {}
        lemma_same_white(d, d, all);
        assert(lost_white_alone(d, e));
        lemma_closed_after_loss(d, e);
        lemma_pruned_all(e, kids, keeps_space(d[n as int], told), fuel);
        lemma_white_twice(d, e, pruned(d, n, told, fuel));
    }
}

proof fn lemma_pruned_all(d: DomView, kids: Seq<NodePtr>, told: bool, fuel: nat)
    requires
        closed_links(d),
        forall|i: int| 0 <= i < kids.len() ==> #[trigger] kids[i] < d.len(),
    ensures
        lost_white_alone(d, pruned_all(d, kids, told, fuel)),
    decreases fuel, 0nat, kids.len(),
{
    if kids.len() == 0 || fuel == 0 {
        assert forall|m: int| 0 <= m < d.len() implies (#[trigger] d[m]) == with_children(
            d[m],
            children_of(d[m]),
        ) by {}
    } else {
        let front = kids.drop_last();
        assert forall|i: int| 0 <= i < front.len() implies #[trigger] front[i] < d.len() by {
            assert(front[i] == kids[i]);
        }
        lemma_pruned_all(d, front, told, fuel);
        let e = pruned_all(d, front, told, fuel);
        lemma_closed_after_loss(d, e);
        assert(kids[kids.len() - 1] < d.len());
        law_pruning_drops_white_text_alone(e, kids.last(), told, (fuel - 1) as nat);
        lemma_white_twice(d, e, pruned_all(d, kids, told, fuel));
    }
}

/// After pruning no element at or below the node, at whatever depth, has a white
/// text child, unless white space means something in it.
pub proof fn law_pruning_reaches_every_depth(
    d: DomView,
    n: NodePtr,
    told: bool,
    route: Seq<int>,
    i: int,
)
    requires
        closed_links(d),
        finite_from(d, n, Reach::Children),
    ensures
        ({
            let e = pruned(d, n, told, d.len());
            arrival(child_lists(e), n, route) matches Some(m) ==> e[m as int] is Element
                && !is_verbatim(e[m as int]) && 0 <= i < child_lists(e)(m).len() ==> !is_white(
                e[child_lists(e)(m)[i] as int],
            )
        }),
{
    law_pruning_leaves_no_blank_text(d, n, told);
    lemma_tidy_below(pruned(d, n, told, d.len()), n, told, d.len(), route, i);
}

proof fn lemma_tidy_below(
    e: DomView,
    n: NodePtr,
    told: bool,
    fuel: nat,
    route: Seq<int>,
    i: int,
)
    requires
        tidy(e, n, told, fuel),
    ensures
        arrival(child_lists(e), n, route) matches Some(m) ==> e[m as int] is Element
            && !is_verbatim(e[m as int]) && 0 <= i < child_lists(e)(m).len() ==> !is_white(
            e[child_lists(e)(m)[i] as int],
        ),
    decreases route.len(),
{
    let kids = children_of(e[n as int]);
    assert(kids =~= child_lists(e)(n));
    if route.len() == 0 {
        if e[n as int] is Element && !is_verbatim(e[n as int]) && 0 <= i < kids.len() {
            assert(!is_blank_text(e[kids[i] as int]));
        }
    } else if 0 <= route[0] < kids.len() {
        assert(tidy(e, kids[route[0]], keeps_space(e[n as int], told), (fuel - 1) as nat));
        lemma_tidy_below(
            e,
            kids[route[0]],
            keeps_space(e[n as int], told),
            (fuel - 1) as nat,
            route.drop_first(),
            i,
        );
    }
}

/// A node that is put last stands behind the other children, which stay as they
/// are; only text behind text does not get a place of its own.
pub proof fn law_appended_nodes_come_last(d: DomView, p: NodePtr, c: NodePtr)
    requires
        closed_links(d),
        p < d.len(),
        c < d.len(),
        is_container(d[p as int]),
    ensures
        ({
            let kids = children_of(d[p as int]);
            let joins = d[c as int] is Text && kids.len() > 0 && d[kids[kids.len() - 1] as int] is Text;
            &&& joins == merges(d, p, c)
            &&& !joins ==> appended(d, p, c) == d.update(
                p as int,
                with_children(d[p as int], kids + seq![c]),
            )
            &&& joins ==> forall|m: int|
                0 <= m < d.len() && m != kids.last() ==> #[trigger] appended(d, p, c)[m] == d[m]
        }),
{
    let kids = children_of(d[p as int]);
    assert(kids.push(c) =~= kids + seq![c]);
    if !merges(d, p, c) {
        assert(appended(d, p, c) == rechilded(d, p, kids.push(c)));
    } else {
        assert(node_ok(d[p as int], d.len()));
        assert(kids[kids.len() - 1] < d.len());
    }
}

/// A node that is put before a sibling stands right before it: what was before the
/// sibling comes first, then the node, then the sibling and what was behind it.
pub proof fn law_nodes_are_put_right_before(w: SinkView, sibling: NodePtr, c: NodePtr, at: int)
    requires
        w.parents.contains_key(sibling),
        w.parents[sibling] < w.dom.len(),
        is_container(w.dom[w.parents[sibling] as int]),
        ({
            let kids = children_of(w.dom[w.parents[sibling] as int]);
            0 <= at < kids.len() && kids[at] == sibling && forall|j: int|
                0 <= j < at ==> #[trigger] kids[j] != sibling
        }),
    ensures
        ({
            let p = w.parents[sibling];
            let kids = children_of(w.dom[p as int]);
            let after = put_before(w, sibling, c);
            &&& children_of(after.dom[p as int]) == kids.take(at) + seq![c] + kids.skip(at)
            &&& after.parents == w.parents.insert(c, p)
            &&& after.dom == w.dom.update(
                p as int,
                with_children(w.dom[p as int], children_of(after.dom[p as int])),
            )
        }),
{
    let p = w.parents[sibling];
    let kids = children_of(w.dom[p as int]);
    lemma_first_index(kids, sibling, at);
    assert(kids.insert(at, c) =~= kids.take(at) + seq![c] + kids.skip(at));
}

/// A node that is taken away is gone from its parent's list, in which the others
/// keep their order, and has no parent any more.
pub proof fn law_nodes_are_taken_away(w: SinkView, target: NodePtr)
    requires
        w.parents.contains_key(target),
        w.parents[target] < w.dom.len(),
        is_container(w.dom[w.parents[target] as int]),
    ensures
        ({
            let p = w.parents[target];
            let after = taken_away(w, target);
            &&& children_of(after.dom[p as int]) == children_of(w.dom[p as int]).filter(
                |x: NodePtr| x != target,
            )
            &&& after.parents == w.parents.remove(target)
            &&& forall|m: int|
                0 <= m < w.dom.len() && m != p ==> #[trigger] after.dom[m] == w.dom[m]
        }),
{
    lemma_filter_is_without(children_of(w.dom[w.parents[target] as int]), target);
}

/// The attributes of a new element are those of its list; where a name comes twice
/// the last counts.
pub proof fn law_last_attribute_counts(list: Seq<(String, String)>, name: Seq<char>, at: int)
    requires
        0 <= at < list.len() ==> list[at].0@ == name,
        -1 <= at < list.len(),
        forall|j: int| at < j < list.len() ==> (#[trigger] list[j]).0@ != name,
    ensures
        at >= 0 ==> attribute_list(list).contains_key(name) && attribute_list(list)[name]
            == list[at].1@,
        at < 0 ==> !attribute_list(list).contains_key(name),
    decreases list.len(),
{
    if list.len() > 0 && at < list.len() - 1 {
        assert(list[list.len() - 1].0@ != name);
        let front = list.drop_last();
        assert forall|j: int| at < j < front.len() implies (#[trigger] front[j]).0@ != name by {
            assert(front[j] == list[j]);
        }
        if at >= 0 {
            assert(front[at] == list[at]);
        }
        law_last_attribute_counts(front, name, at);
    }
}

/// Completing attributes changes none that are there, and adds those that are
/// missing; where a name comes twice the first counts.
pub proof fn law_present_attributes_stay(
    m: Map<Seq<char>, Seq<char>>,
    list: Seq<(String, String)>,
    name: Seq<char>,
    at: int,
)
    requires
        0 <= at <= list.len(),
        at < list.len() ==> list[at].0@ == name,
        forall|j: int| 0 <= j < at ==> (#[trigger] list[j]).0@ != name,
    ensures
        ({
            let all = completed(m, list);
            if m.contains_key(name) {
                all.contains_key(name) && all[name] == m[name]
            } else if at < list.len() {
                all.contains_key(name) && all[name] == list[at].1@
            } else {
                !all.contains_key(name)
            }
        }),
    decreases list.len(),
{
    if list.len() > 0 {
        let front = list.drop_last();
        let near = if at < front.len() {
            at
        } else {
            front.len() as int
        };
        assert forall|j: int| 0 <= j < near implies (#[trigger] front[j]).0@ != name by {
            assert(front[j] == list[j]);
        }
        if near < front.len() {
            assert(front[near] == list[at]);
        }
        law_present_attributes_stay(m, front, name, near);
        assert(list.last() == list[list.len() - 1]);
    }
}

} // verus!
