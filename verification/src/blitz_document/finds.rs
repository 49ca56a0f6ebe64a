//! What look-ups in the mirror find.

use crate::blitz_document::document::BlitzState;
use crate::blitz_document::lookup::{ascent_ends, can_see, closest, descent_ends, is_result,
    lies_under, link_at_or_above, node_at_or_above, parent_at, query_results, tag_result, tagged,
    tagged_all};
use crate::blitz_document::render::{element_of, first_value, node_at, value_of, RenderAttributeView,
    RenderDataView, RenderView};
use crate::blitz_document::summary::{all_present, counted, counted_all, one, plus, Tally};
use crate::dom::node::{DomView, NodePtr};
use crate::dom::routes::{gathered, gathered_all, lemma_gathered_lists_all, lists_all, routes_end,
    Below};
use crate::dom::shadow::is_root_at;
use crate::text::same_ignoring_case;
use vstd::prelude::*;

verus! {

/// The rendered node `k` parents above `id`.
pub open spec fn render_above(t: RenderView, id: usize, k: nat) -> Option<usize>
    decreases k,
{
    if k == 0 {
        Some(id)
    } else {
        match render_above(t, id, (k - 1) as nat) {
            Some(m) => if m < t.len() {
                match t[m as int] {
                    Some(node) => node.parent,
                    None => None,
                }
            } else {
                None
            },
            None => None,
        }
    }
}

proof fn lemma_render_above(t: RenderView, id: usize, k: nat)
    requires
        k > 0,
    ensures
        render_above(t, id, k) == (match parent_at(t, id) {
            Some(p) => render_above(t, p, (k - 1) as nat),
            None => None,
        }),
    decreases k,
{
    if k > 1 {
        lemma_render_above(t, id, (k - 1) as nat);
    } else {
        assert(render_above(t, id, 0) == Some(id));
    }
}

/// Whether the rendered node that is met first on the way up from `id`, among
/// those that satisfy `p`, is the one `k` parents up.
pub open spec fn is_met_first(
    t: RenderView,
    id: usize,
    p: spec_fn(usize) -> bool,
    k: nat,
) -> bool {
    &&& render_above(t, id, k) matches Some(m) && p(m)
    &&& forall|j: nat| j < k ==> (#[trigger] render_above(t, id, j) matches Some(m) && !p(m))
}

/// Whether no rendered node on the way up from `id` satisfies `p`.
pub open spec fn is_never_met(t: RenderView, id: usize, p: spec_fn(usize) -> bool) -> bool {
    forall|k: nat| (#[trigger] render_above(t, id, k)) matches Some(m) ==> !p(m)
}

proof fn lemma_met_above(
    t: RenderView,
    id: usize,
    up: usize,
    p: spec_fn(usize) -> bool,
    k: nat,
)
    requires
        parent_at(t, id) == Some(up),
        !p(id),
        is_met_first(t, up, p, k),
    ensures
        is_met_first(t, id, p, k + 1),
{
    lemma_render_above(t, id, k + 1);
    assert forall|j: nat| j < k + 1 implies (#[trigger] render_above(t, id, j) matches Some(m)
        && !p(m)) by {
        if j > 0 {
            lemma_render_above(t, id, j);
            assert(render_above(t, up, (j - 1) as nat) is Some);
        } else {
            assert(render_above(t, id, 0) == Some(id));
        }
    }
}

proof fn lemma_never_met_above(t: RenderView, id: usize, p: spec_fn(usize) -> bool)
    requires
        !p(id),
        parent_at(t, id) matches Some(up) ==> is_never_met(t, up, p),
    ensures
        is_never_met(t, id, p),
{
    assert forall|k: nat| (#[trigger] render_above(t, id, k)) matches Some(m) implies !p(
        render_above(t, id, k)->0,
    ) by {
        if k > 0 {
            lemma_render_above(t, id, k);
            if let Some(up) = parent_at(t, id) {
                assert(render_above(t, up, (k - 1) as nat) == render_above(t, id, k));
            }
        } else {
            assert(render_above(t, id, 0) == Some(id));
        }
    }
}

/// A rendered node lies under another exactly if the other is met on the way up
/// from it.
pub proof fn law_lying_under_is_ancestry(t: RenderView, id: usize, ancestor: usize, fuel: nat)
    requires
        ascent_ends(t, id, fuel),
    ensures
        lies_under(t, id, ancestor, fuel) <==> exists|k: nat| #[trigger]
            render_above(t, id, k) == Some(ancestor),
    decreases fuel,
{
    assert(render_above(t, id, 0) == Some(id));
    if let Some(up) = parent_at(t, id) {
        law_lying_under_is_ancestry(t, up, ancestor, (fuel - 1) as nat);
        if lies_under(t, up, ancestor, (fuel - 1) as nat) {
            let k = choose|k: nat| #[trigger] render_above(t, up, k) == Some(ancestor);
            lemma_render_above(t, id, k + 1);
            assert(render_above(t, id, k + 1) == Some(ancestor));
        }
    }
    if exists|k: nat| #[trigger] render_above(t, id, k) == Some(ancestor) {
        let k = choose|k: nat| #[trigger] render_above(t, id, k) == Some(ancestor);
        if k > 0 {
            lemma_render_above(t, id, k);
            let up = parent_at(t, id)->0;
            assert(render_above(t, up, (k - 1) as nat) == Some(ancestor));
        }
    }
}

/// A hit is the node of the first rendered node that has one, on the way up from
/// the one that was hit; there is none only where none of them has one.
pub proof fn law_hits_go_to_the_nearest_node(s: BlitzState, t: RenderView, id: usize, fuel: nat)
    requires
        ascent_ends(t, id, fuel),
    ensures
        ({
            let known = |m: usize| s.to_legacy.contains_key(m);
            match node_at_or_above(s, t, id, fuel) {
                Some(n) => exists|k: nat| #[trigger]
                    is_met_first(t, id, known, k) && s.to_legacy[render_above(t, id, k)->0] == n,
                None => is_never_met(t, id, known),
            }
        }),
    decreases fuel,
{
    let known = |m: usize| s.to_legacy.contains_key(m);
    assert(render_above(t, id, 0) == Some(id));
    if known(id) {
        assert(is_met_first(t, id, known, 0));
    } else {
        match parent_at(t, id) {
            Some(up) => {
                law_hits_go_to_the_nearest_node(s, t, up, (fuel - 1) as nat);
                match node_at_or_above(s, t, id, fuel) {
                    Some(n) => {
                        let k = choose|k: nat| #[trigger]
                            is_met_first(t, up, known, k) && s.to_legacy[render_above(t, up, k)->0]
                                == n;
                        lemma_met_above(t, id, up, known, k);
                        lemma_render_above(t, id, k + 1);
                    },
                    None => {
                        lemma_never_met_above(t, id, known);
                    },
                }
            },
            None => {
                lemma_never_met_above(t, id, known);
            },
        }
    }
}

/// Whether a rendered node is a link: an `a` with an `href`.
pub open spec fn is_link(t: RenderView) -> spec_fn(usize) -> bool {
    |m: usize|
        m < t.len() && (t[m as int] matches Some(node) && match node.data {
            RenderDataView::Element(el) => el.name.local == "a"@ && has_attribute(
                el.attrs,
                "href"@,
            ),
            RenderDataView::AnonymousBlock(el) => el.name.local == "a"@ && has_attribute(
                el.attrs,
                "href"@,
            ),
            _ => false,
        })
}

/// Whether an attribute is among those of an element.
pub open spec fn has_attribute(attrs: Seq<RenderAttributeView>, name: Seq<char>) -> bool {
    exists|i: int| 0 <= i < attrs.len() && (#[trigger] attrs[i]).name.local == name
}

/// The value of an attribute is that of the first one of its name.
pub proof fn law_first_attribute_is_read(attrs: Seq<RenderAttributeView>, name: Seq<char>)
    ensures
        match first_value(attrs, name) {
            Some(v) => exists|i: int|
                0 <= i < attrs.len() && (#[trigger] attrs[i]).name.local == name && attrs[i].value
                    == v && forall|j: int| 0 <= j < i ==> (#[trigger] attrs[j]).name.local != name,
            None => !has_attribute(attrs, name),
        },
    decreases attrs.len(),
{
    if attrs.len() > 0 && attrs[0].name.local != name {
        let rest = attrs.drop_first();
        law_first_attribute_is_read(rest, name);
        match first_value(attrs, name) {
            Some(v) => {
                let i = choose|i: int|
                    0 <= i < rest.len() && (#[trigger] rest[i]).name.local == name && rest[i].value
                        == v && forall|j: int|
                        0 <= j < i ==> (#[trigger] rest[j]).name.local != name;
                assert(attrs[i + 1] == rest[i]);
                assert forall|j: int| 0 <= j < i + 1 implies (#[trigger] attrs[j]).name.local
                    != name by {
                    if j > 0 {
                        assert(attrs[j] == rest[j - 1]);
                    }
                }
            },
            None => {
                if has_attribute(attrs, name) {
                    let i = choose|i: int|
                        0 <= i < attrs.len() && (#[trigger] attrs[i]).name.local == name;
                    assert(rest[i - 1].name.local == name);
                }
            },
        }
    } else if attrs.len() > 0 {
        assert(attrs[0].value == first_value(attrs, name)->0);
    }
}

/// The address under a point is that of the first link on the way up from the
/// rendered node that was hit.
pub proof fn law_links_are_found_on_the_way_up(t: RenderView, id: usize, fuel: nat)
    requires
        ascent_ends(t, id, fuel),
    ensures
        match link_at_or_above(t, id, fuel) {
            Some(href) => exists|k: nat| #[trigger]
                is_met_first(t, id, is_link(t), k) && value_of(
                    t[render_above(t, id, k)->0 as int]->0.data,
                    "href"@,
                ) == Some(href),
            None => is_never_met(t, id, is_link(t)),
        },
    decreases fuel,
{
    let p = is_link(t);
    assert(render_above(t, id, 0) == Some(id));
    if let Some(node) = node_at(t, id) {
        if let Some(el) = element_of(node.data) {
            law_first_attribute_is_read(el.attrs, "href"@);
        }
    }
    if p(id) {
        assert(is_met_first(t, id, p, 0));
    } else {
        match parent_at(t, id) {
            Some(up) => {
                law_links_are_found_on_the_way_up(t, up, (fuel - 1) as nat);
                match link_at_or_above(t, id, fuel) {
                    Some(href) => {
                        let k = choose|k: nat| #[trigger]
                            is_met_first(t, up, p, k) && value_of(
                                t[render_above(t, up, k)->0 as int]->0.data,
                                "href"@,
                            ) == Some(href);
                        lemma_met_above(t, id, up, p, k);
                        lemma_render_above(t, id, k + 1);
                    },
                    None => {
                        lemma_never_met_above(t, id, p);
                    },
                }
            },
            None => {
                lemma_never_met_above(t, id, p);
            },
        }
    }
}

/// The closest match is the node of the first rendered node on the way up that
/// matches, if it stands for an element. The way does not lead out of a shadow
/// tree: what is rendered for a shadow root ends it.
pub proof fn law_closest_match_is_met_first(
    s: BlitzState,
    d: DomView,
    t: RenderView,
    id: usize,
    matches: Seq<usize>,
    fuel: nat,
)
    requires
        ascent_ends(t, id, fuel),
    ensures
        ({
            let hit = |m: usize| matches.contains(m);
            match closest(s, d, t, id, matches, fuel) {
                Some(n) => exists|k: nat| #[trigger]
                    is_met_first(t, id, hit, k) && s.to_legacy.contains_key(
                        render_above(t, id, k)->0,
                    ) && s.to_legacy[render_above(t, id, k)->0] == n && d[n as int] is Element
                        && no_root_above(s, d, t, id, k),
                None => forall|k: nat| #[trigger]
                    is_met_first(t, id, hit, k) ==> !no_root_above(s, d, t, id, k)
                        || !s.to_legacy.contains_key(render_above(t, id, k)->0)
                        || !(d[s.to_legacy[render_above(t, id, k)->0] as int] is Element),
            }
        }),
    decreases fuel,
{
    let hit = |m: usize| matches.contains(m);
    assert(render_above(t, id, 0) == Some(id));
    if hit(id) {
        assert(is_met_first(t, id, hit, 0));
        assert(no_root_above(s, d, t, id, 0));
        assert forall|k: nat| #[trigger] is_met_first(t, id, hit, k) implies k == 0 by {
            if k > 0 {
                assert(render_above(t, id, 0) is Some);
            }
        }
    } else {
        match parent_at(t, id) {
            Some(up) => {
                let stop = s.to_legacy.contains_key(up) && is_root_at(d, s.to_legacy[up]);
                assert(render_above(t, id, 1) == Some(up)) by {
                    lemma_render_above(t, id, 1);
                    assert(render_above(t, up, 0) == Some(up));
                }
                law_closest_match_is_met_first(s, d, t, up, matches, (fuel - 1) as nat);
                assert forall|k: nat| #[trigger] is_met_first(t, id, hit, k) implies k > 0
                    && is_met_first(t, up, hit, (k - 1) as nat) && (no_root_above(s, d, t, id, k)
                    ==> !stop && no_root_above(s, d, t, up, (k - 1) as nat)) && render_above(
                    t,
                    id,
                    k,
                ) == render_above(t, up, (k - 1) as nat) by {
                    lemma_met_below(t, id, up, hit, k);
                    lemma_roots_below(s, d, t, id, up, k);
                }
                match closest(s, d, t, id, matches, fuel) {
                    Some(n) => {
                        let k = choose|k: nat| #[trigger]
                            is_met_first(t, up, hit, k) && s.to_legacy.contains_key(
                                render_above(t, up, k)->0,
                            ) && s.to_legacy[render_above(t, up, k)->0] == n
                                && d[n as int] is Element && no_root_above(s, d, t, up, k);
                        lemma_met_above(t, id, up, hit, k);
                        lemma_render_above(t, id, k + 1);
                        assert forall|j: nat| 0 < j <= k + 1 implies {
                            (#[trigger] render_above(t, id, j)) matches Some(m)
                                ==> !(s.to_legacy.contains_key(m) && is_root_at(
                                d,
                                s.to_legacy[m],
                            ))
                        } by {
                            lemma_render_above(t, id, j);
                            if j > 1 {
                                assert(render_above(t, up, (j - 1) as nat) == render_above(
                                    t,
                                    id,
                                    j,
                                ));
                            }
                        }
                        assert(no_root_above(s, d, t, id, k + 1));
                    },
                    None => {},
                }
            },
            None => {
                lemma_never_met_above(t, id, hit);
                assert forall|k: nat| #[trigger] is_met_first(t, id, hit, k) implies false by {
                    assert(render_above(t, id, k) is Some);
                }
            },
        }
    }
}

/// Whether none of the `k` rendered nodes above `id` stands for a shadow root.
pub open spec fn no_root_above(
    s: BlitzState,
    d: DomView,
    t: RenderView,
    id: usize,
    k: nat,
) -> bool {
    forall|j: nat|
        0 < j <= k ==> {
            (#[trigger] render_above(t, id, j)) matches Some(m) ==> !(s.to_legacy.contains_key(m)
                && is_root_at(d, s.to_legacy[m]))
        }
}

proof fn lemma_met_below(
    t: RenderView,
    id: usize,
    up: usize,
    p: spec_fn(usize) -> bool,
    k: nat,
)
    requires
        parent_at(t, id) == Some(up),
        !p(id),
        is_met_first(t, id, p, k),
    ensures
        k > 0,
        is_met_first(t, up, p, (k - 1) as nat),
        render_above(t, id, k) == render_above(t, up, (k - 1) as nat),
{
    assert(render_above(t, id, 0) == Some(id));
    lemma_render_above(t, id, k);
    assert forall|j: nat| j < k - 1 implies (#[trigger] render_above(t, up, j) matches Some(m)
        && !p(m)) by {
        lemma_render_above(t, id, j + 1);
        assert(render_above(t, id, j + 1) is Some);
    }
}

proof fn lemma_roots_below(
    s: BlitzState,
    d: DomView,
    t: RenderView,
    id: usize,
    up: usize,
    k: nat,
)
    requires
        parent_at(t, id) == Some(up),
        k > 0,
    ensures
        no_root_above(s, d, t, id, k) ==> !(s.to_legacy.contains_key(up) && is_root_at(
            d,
            s.to_legacy[up],
        )) && no_root_above(s, d, t, up, (k - 1) as nat),
{
    if no_root_above(s, d, t, id, k) {
        lemma_render_above(t, id, 1);
        assert(render_above(t, up, 0) == Some(up));
        assert(render_above(t, id, 1) == Some(up));
        assert forall|j: nat| 0 < j <= k - 1 implies {
            (#[trigger] render_above(t, up, j)) matches Some(m) ==> !(s.to_legacy.contains_key(m)
                && is_root_at(d, s.to_legacy[m]))
        } by {
            lemma_render_above(t, id, j + 1);
            assert(render_above(t, id, j + 1) == render_above(t, up, j));
        }
    }
}

/// The results of a query are the nodes behind those rendered matches that lie
/// under the start, stand for an element and are in the start's shadow tree; they
/// keep the order of the matches.
pub proof fn law_results_are_the_visible_matches(
    s: BlitzState,
    d: DomView,
    t: RenderView,
    matches: Seq<usize>,
    start: NodePtr,
)
    requires
        forall|i: int| 0 <= i < matches.len() ==> ascent_ends(t, #[trigger] matches[i], t.len() + 1),
    ensures
        query_results(s, d, t, matches, start) == matches.filter(
            |id: usize|
                (exists|k: nat| #[trigger] render_above(t, id, k) == Some(s.to_blitz[start]))
                    && s.to_legacy.contains_key(id) && d[s.to_legacy[id] as int] is Element
                    && can_see(d, start, s.to_legacy[id]),
        ).map_values(|id: usize| s.to_legacy[id]),
    decreases matches.len(),
{
    reveal(Seq::filter);
    let q = |id: usize|
        (exists|k: nat| #[trigger] render_above(t, id, k) == Some(s.to_blitz[start]))
            && s.to_legacy.contains_key(id) && d[s.to_legacy[id] as int] is Element && can_see(
            d,
            start,
            s.to_legacy[id],
        );
    let f = |id: usize| s.to_legacy[id];
    if matches.len() == 0 {
        assert(query_results(s, d, t, matches, start) =~= matches.filter(q).map_values(f));
    } else {
        let front = matches.drop_last();
        let last = matches.last();
        assert forall|i: int| 0 <= i < front.len() implies ascent_ends(
            t,
            #[trigger] front[i],
            t.len() + 1,
        ) by {
            assert(front[i] == matches[i]);
        }
        law_results_are_the_visible_matches(s, d, t, front, start);
        assert(matches[matches.len() - 1] == last);
        law_lying_under_is_ancestry(t, last, s.to_blitz[start], t.len() + 1);
        assert(q(last) == is_result(s, d, t, last, start));
        if q(last) {
            assert(matches.filter(q) == front.filter(q).push(last));
            assert(front.filter(q).push(last).map_values(f) =~= front.filter(q).map_values(f).push(
                f(last),
            ));
        }
    }
}

/// The child lists of a rendered tree.
pub open spec fn render_lists(t: RenderView) -> Below {
    |m: usize|
        if m < t.len() {
            match t[m as int] {
                Some(node) => node.children,
                None => Seq::empty(),
            }
        } else {
            Seq::empty()
        }
}

/// The node behind a rendered element of the given tag name, if it stands for an
/// element and is in the start's shadow tree.
pub open spec fn tagged_alone(
    s: BlitzState,
    d: DomView,
    t: RenderView,
    tag: Seq<char>,
    start: NodePtr,
) -> spec_fn(usize) -> Seq<NodePtr> {
    |m: usize|
        if m < t.len() && (t[m as int] matches Some(node) && (match node.data {
            RenderDataView::Element(el) => tag == "*"@ || same_ignoring_case(el.name.local, tag),
            RenderDataView::AnonymousBlock(el) => tag == "*"@ || same_ignoring_case(
                el.name.local,
                tag,
            ),
            _ => false,
        })) && s.to_legacy.contains_key(m) && d[s.to_legacy[m] as int] is Element && can_see(
            d,
            start,
            s.to_legacy[m],
        ) {
            seq![s.to_legacy[m]]
        } else {
            Seq::empty()
        }
}

/// A search by tag name finds every such node at or below, at every depth, in
/// document order.
pub proof fn law_tag_search_reaches_every_depth(
    s: BlitzState,
    d: DomView,
    t: RenderView,
    id: usize,
    tag: Seq<char>,
    start: NodePtr,
    fuel: nat,
)
    requires
        descent_ends(t, id, fuel),
    ensures
        lists_all(
            tagged_alone(s, d, t, tag, start),
            render_lists(t),
            id,
            tagged(s, d, t, id, tag, start, fuel),
        ),
{
    lemma_descent_routes(t, id, fuel);
    lemma_gathered_lists_all(tagged_alone(s, d, t, tag, start), render_lists(t), id, fuel);
    lemma_tagged_gathered(s, d, t, id, tag, start, fuel);
}

proof fn lemma_descent_routes(t: RenderView, id: usize, fuel: nat)
    requires
        descent_ends(t, id, fuel),
    ensures
        routes_end(render_lists(t), id, fuel),
    decreases fuel,
{
    let kids = render_lists(t)(id);
    assert forall|i: int| 0 <= i < kids.len() implies routes_end(
        render_lists(t),
        #[trigger] render_lists(t)(id)[i],
        (fuel - 1) as nat,
    ) by {
        let node = node_at(t, id)->0;
        assert(descent_ends(t, node.children[i], (fuel - 1) as nat));
        lemma_descent_routes(t, kids[i], (fuel - 1) as nat);
    }
}

proof fn lemma_tagged_gathered(
    s: BlitzState,
    d: DomView,
    t: RenderView,
    id: usize,
    tag: Seq<char>,
    start: NodePtr,
    fuel: nat,
)
    ensures
        tagged(s, d, t, id, tag, start, fuel) == gathered(
            tagged_alone(s, d, t, tag, start),
            render_lists(t),
            id,
            fuel,
        ),
    decreases fuel, 1nat, 0nat,
{
    lemma_tagged_gathered_all(s, d, t, render_lists(t)(id), tag, start, fuel);
    let own = tagged_alone(s, d, t, tag, start);
    match node_at(t, id) {
        Some(node) => {
            assert(own(id) == (if tag_result(s, d, id, node, tag, start) {
                seq![s.to_legacy[id]]
            } else {
                Seq::empty()
            }));
        },
        None => {
            assert(gathered(own, render_lists(t), id, fuel) =~= Seq::<NodePtr>::empty());
        },
    }
}

proof fn lemma_tagged_gathered_all(
    s: BlitzState,
    d: DomView,
    t: RenderView,
    ids: Seq<usize>,
    tag: Seq<char>,
    start: NodePtr,
    fuel: nat,
)
    ensures
        tagged_all(s, d, t, ids, tag, start, fuel) == gathered_all(
            tagged_alone(s, d, t, tag, start),
            render_lists(t),
            ids,
            fuel,
        ),
    decreases fuel, 0nat, ids.len(),
{
    if ids.len() > 0 && fuel > 0 {
        lemma_tagged_gathered_all(s, d, t, ids.drop_last(), tag, start, fuel);
        lemma_tagged_gathered(s, d, t, ids.last(), tag, start, (fuel - 1) as nat);
    }
}

/// The child lists of a rendered tree but for those of text.
pub open spec fn counted_lists(t: RenderView) -> Below {
    |m: usize|
        if m < t.len() && (t[m as int] matches Some(node) && !(node.data is Text)) {
            t[m as int]->0.children
        } else {
            Seq::empty()
        }
}

/// What a rendered node is.
pub open spec fn kind_alone(t: RenderView) -> spec_fn(usize) -> Seq<RenderDataView> {
    |m: usize| seq![t[m as int]->0.data]
}

/// Counting counts every rendered node at or below, at every depth, once, and
/// among them the elements and the texts.
pub proof fn law_every_rendered_node_is_counted(t: RenderView, id: usize, fuel: nat) -> (kinds: Seq<
    RenderDataView,
>)
    requires
        all_present(t, id, fuel),
    ensures
        lists_all(kind_alone(t), counted_lists(t), id, kinds),
        counted(t, id, fuel) == (Tally {
            total: kinds.len(),
            elements: kinds.filter(
                |k: RenderDataView| k is Element || k is AnonymousBlock,
            ).len(),
            text: kinds.filter(|k: RenderDataView| k is Text).len(),
        }),
{
    let kinds = gathered(kind_alone(t), counted_lists(t), id, fuel);
    lemma_present_routes(t, id, fuel);
    lemma_gathered_lists_all(kind_alone(t), counted_lists(t), id, fuel);
    lemma_counted_gathered(t, id, fuel);
    kinds
}

proof fn lemma_present_routes(t: RenderView, id: usize, fuel: nat)
    requires
        all_present(t, id, fuel),
    ensures
        routes_end(counted_lists(t), id, fuel),
    decreases fuel,
{
    let kids = counted_lists(t)(id);
    assert forall|i: int| 0 <= i < kids.len() implies routes_end(
        counted_lists(t),
        #[trigger] counted_lists(t)(id)[i],
        (fuel - 1) as nat,
    ) by {
        let node = node_at(t, id)->0;
        assert(all_present(t, node.children[i], (fuel - 1) as nat));
        lemma_present_routes(t, kids[i], (fuel - 1) as nat);
    }
}

spec fn tallied(kinds: Seq<RenderDataView>) -> Tally {
    Tally {
        total: kinds.len(),
        elements: kinds.filter(|k: RenderDataView| k is Element || k is AnonymousBlock).len(),
        text: kinds.filter(|k: RenderDataView| k is Text).len(),
    }
}

proof fn lemma_tallied(a: Seq<RenderDataView>, b: Seq<RenderDataView>)
    ensures
        tallied(a + b) == plus(tallied(a), tallied(b)),
{
    Seq::filter_distributes_over_add(a, b, |k: RenderDataView| k is Element || k is AnonymousBlock);
    Seq::filter_distributes_over_add(a, b, |k: RenderDataView| k is Text);
}

proof fn lemma_counted_gathered(t: RenderView, id: usize, fuel: nat)
    requires
        all_present(t, id, fuel),
    ensures
        counted(t, id, fuel) == tallied(gathered(kind_alone(t), counted_lists(t), id, fuel)),
    decreases fuel, 1nat, 0nat,
{
    reveal_with_fuel(Seq::filter, 2);
    let own = kind_alone(t)(id);
    let node = node_at(t, id)->0;
    let kids = counted_lists(t)(id);
    assert(own.drop_last() =~= Seq::<RenderDataView>::empty());
    assert(own == seq![node.data]);
    assert(tallied(own) == one(node.data));
    if node.data is Text {
        assert(gathered_all(kind_alone(t), counted_lists(t), kids, fuel) =~= Seq::<
            RenderDataView,
        >::empty());
        assert(gathered(kind_alone(t), counted_lists(t), id, fuel) =~= own);
    } else {
        assert forall|i: int| 0 <= i < kids.len() implies all_present(
            t,
            #[trigger] kids[i],
            (fuel - 1) as nat,
        ) by {
            assert(node.children[i] == kids[i]);
        }
        lemma_counted_gathered_all(t, kids, fuel);
        lemma_tallied(own, gathered_all(kind_alone(t), counted_lists(t), kids, fuel));
    }
}

proof fn lemma_counted_gathered_all(t: RenderView, ids: Seq<usize>, fuel: nat)
    requires
        fuel > 0,
        forall|i: int|
            0 <= i < ids.len() ==> all_present(t, #[trigger] ids[i], (fuel - 1) as nat),
    ensures
        counted_all(t, ids, fuel) == tallied(
            gathered_all(kind_alone(t), counted_lists(t), ids, fuel),
        ),
    decreases fuel, 0nat, ids.len(),
{
    reveal(Seq::filter);
    if ids.len() > 0 {
        let front = ids.drop_last();
        assert forall|i: int| 0 <= i < front.len() implies all_present(
            t,
            #[trigger] front[i],
            (fuel - 1) as nat,
        ) by {
            assert(front[i] == ids[i]);
        }
        lemma_counted_gathered_all(t, front, fuel);
        assert(ids[ids.len() - 1] == ids.last());
        lemma_counted_gathered(t, ids.last(), (fuel - 1) as nat);
        lemma_tallied(
            gathered_all(kind_alone(t), counted_lists(t), front, fuel),
            gathered(kind_alone(t), counted_lists(t), ids.last(), (fuel - 1) as nat),
        );
    }
}

} // verus!
