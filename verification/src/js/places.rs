//! Where insertion puts a node.

use crate::dom::node::{children_of, closed_links, is_container, is_fragment, node_ok, parent_of,
    DomView, NodePtr};
use crate::dom::shadow::without;
use crate::js::mutation::{detached, enough, index_in, lemma_filter_is_without, lemma_first_index,
    lemma_without_nothing, placed, placed_one, put, Place};
use vstd::prelude::*;

verus! {

/// Whether `at` is the position among `others` that a place stands for: behind
/// the last, before the first, or where the given node stands first; behind the
/// last where it does not occur.
pub open spec fn stands_for(place: Place, others: Seq<NodePtr>, at: int) -> bool {
    match place {
        Place::End => at == others.len(),
        Place::Start => at == 0,
        Place::Before(r) => {
            &&& 0 <= at <= others.len()
            &&& forall|j: int| 0 <= j < at ==> #[trigger] others[j] != r
            &&& at < others.len() ==> others[at] == r
        },
    }
}

/// A node that is inserted stands where it was put, among the other children in
/// their order. The parent that it had before loses it, and nothing else changes.
pub proof fn law_insertion_finds_the_place(
    d: DomView,
    p: NodePtr,
    c: NodePtr,
    place: Place,
    others: Seq<NodePtr>,
    at: int,
)
    requires
        closed_links(d),
        p < d.len(),
        c < d.len(),
        c != p,
        !is_fragment(d[c as int]),
        is_container(d[p as int]),
        children_of(d[p as int]).contains(c) ==> parent_of(d[c as int]) == Some(p),
        parent_of(d[c as int]) != Some(c),
        others == children_of(d[p as int]).filter(|x: NodePtr| x != c),
        stands_for(place, others, at),
    ensures
        ({
            let e = placed(d, p, c, place, enough(d));
            let from = parent_of(d[c as int]);
            &&& children_of(e[p as int]) == others.insert(at, c)
            &&& !(d[c as int] is Document) ==> parent_of(e[c as int]) == Some(p)
            &&& children_of(e[c as int]) == children_of(d[c as int])
            &&& e.len() == d.len()
            &&& forall|n: NodePtr|
                n < d.len() && n != p && n != c && from != Some(n) ==> #[trigger] e[n as int]
                    == d[n as int]
            &&& from matches Some(q) ==> q != p ==> children_of(e[q as int]) == children_of(
                d[q as int],
            ).filter(|x: NodePtr| x != c)
        }),
{
    assert(node_ok(d[c as int], d.len()));
    let all = children_of(d[p as int]);
    lemma_filter_is_without(all, c);
    assert(others == without(all, c));
    if !all.contains(c) {
        lemma_without_nothing(all, c);
    }
    let a = detached(d, c);
    assert(children_of(a[p as int]) == others);
    assert(put(others, c, place) =~= others.insert(at, c)) by {
        if let Place::Before(r) = place {
            lemma_place_before(others, r, at);
        }
    }
    assert(placed(d, p, c, place, enough(d)) == placed_one(d, p, c, place));
    if let Some(q) = parent_of(d[c as int]) {
        lemma_filter_is_without(children_of(d[q as int]), c);
    }
}

proof fn lemma_place_before(s: Seq<NodePtr>, r: NodePtr, at: int)
    requires
        0 <= at <= s.len(),
        forall|j: int| 0 <= j < at ==> #[trigger] s[j] != r,
        at < s.len() ==> s[at] == r,
    ensures
        index_in(s, r) == at,
    decreases s.len(),
{
    if at < s.len() {
        lemma_first_index(s, r, at);
    } else if s.len() > 0 {
        assert(s[0] != r);
        let rest = s.drop_first();
        assert forall|j: int| 0 <= j < rest.len() implies #[trigger] rest[j] != r by {
            assert(rest[j] == s[j + 1]);
        }
        lemma_place_before(rest, r, at - 1);
    }
}

} // verus!
