//! Queries over the document tree.
//!
//! Whether an element matches a selector is decided by the caller's matcher;
//! the walk, its order and the context handed to the matcher are fixed here.

use crate::css::ast::{data_views, ElementData, ElementDataView};
use crate::dom::node::{attribute, attribute_of, child_nodes, children_of, clear_parent,
    closed_links, ends_within, finite_from, followed, lemma_same_links, node_ok, parent_of,
    parent_ptr, reparented, retained_of, same_links, set_parent, template_contents, Dom, DomView,
    Node, NodePtr, NodeView, Reach};
use crate::js::mutation::position_of;
use crate::text::{eq_ignore_ascii_case, has_word, same_ignoring_case, text_eq, words};
use vstd::prelude::*;

verus! {

/// `n` and its descendants in document order.
pub open spec fn preorder(d: DomView, n: NodePtr, fuel: nat) -> Seq<NodePtr>
    decreases fuel, 1nat, 0nat,
{
    seq![n] + preorder_all(d, children_of(d[n as int]), fuel)
}

/// The nodes of a list, each followed by its descendants.
pub open spec fn preorder_all(d: DomView, kids: Seq<NodePtr>, fuel: nat) -> Seq<NodePtr>
    decreases fuel, 0nat, kids.len(),
{
    if kids.len() == 0 || fuel == 0 {
        Seq::empty()
    } else {
        preorder_all(d, kids.drop_last(), fuel) + preorder(d, kids.last(), (fuel - 1) as nat)
    }
}

/// `node` and its descendants in document order.
pub fn descendants(dom: &Dom, node: NodePtr) -> (res: Vec<NodePtr>)
    requires
        dom.wf(),
        finite_from(dom@, node, Reach::Children),
    ensures
        res@ == preorder(dom@, node, dom@.len()),
        forall|i: int| 0 <= i < res@.len() ==> #[trigger] res@[i] < dom@.len(),
{
    let mut res: Vec<NodePtr> = Vec::new();
    descend(dom, node, &mut res, Ghost(dom@.len()));
    assert(res@ =~= preorder(dom@, node, dom@.len()));
    res
}

fn descend(dom: &Dom, node: NodePtr, out: &mut Vec<NodePtr>, Ghost(fuel): Ghost<nat>)
    requires
        dom.wf(),
        ends_within(dom@, node, Reach::Children, fuel),
        forall|i: int| 0 <= i < old(out)@.len() ==> #[trigger] old(out)@[i] < dom@.len(),
    ensures
        final(out)@ == old(out)@ + preorder(dom@, node, fuel),
        forall|i: int| 0 <= i < final(out)@.len() ==> #[trigger] final(out)@[i] < dom@.len(),
    decreases fuel,
{
    let ghost start = out@;
    out.push(node);
    let kids = child_nodes(dom, node);
    let mut i: usize = 0;
    proof {
        assert(out@ =~= start + (seq![node] + preorder_all(dom@, kids@.take(0), fuel)));
    }
    while i < kids.len()
        invariant
            i <= kids.len(),
            dom.wf(),
            ends_within(dom@, node, Reach::Children, fuel),
            kids@ == children_of(dom@[node as int]),
            out@ == start + (seq![node] + preorder_all(dom@, kids@.take(i as int), fuel)),
            forall|i: int| 0 <= i < out@.len() ==> #[trigger] out@[i] < dom@.len(),
        decreases kids.len() - i,
    {
        let kid: NodePtr = kids[i];
        let ghost so_far = preorder_all(dom@, kids@.take(i as int), fuel);
        proof {
            let next = kids@.take(i + 1);
            assert(next.drop_last() == kids@.take(i as int));
            assert(next.last() == kid);
            assert(followed(dom@[node as int], Reach::Children)[i as int] == kid);
        }
        descend(dom, kid, out, Ghost((fuel - 1) as nat));
        proof {
            let part = preorder(dom@, kid, (fuel - 1) as nat);
            assert((start + (seq![node] + so_far)) + part =~= start + (seq![node] + (so_far
                + part)));
        }
        i = i + 1;
    }
    assert(kids@.take(i as int) == kids@);
}

/// The first node of a list that satisfies `p`.
pub open spec fn first_match(s: Seq<NodePtr>, p: spec_fn(NodePtr) -> bool) -> Option<NodePtr>
    decreases s.len(),
{
    if s.len() == 0 {
        None
    } else if p(s[0]) {
        Some(s[0])
    } else {
        first_match(s.drop_first(), p)
    }
}

/// The first element in document order, at or below `node`, with the given id.
pub fn find_by_id(dom: &Dom, node: NodePtr, id: &str) -> (res: Option<NodePtr>)
    requires
        dom.wf(),
        finite_from(dom@, node, Reach::Children),
    ensures
        res == first_match(
            preorder(dom@, node, dom@.len()),
            |x: NodePtr| attribute_of(dom@[x as int], "id"@) == Some(id@),
        ),
{
    let all = descendants(dom, node);
    let ghost has_id = |x: NodePtr| attribute_of(dom@[x as int], "id"@) == Some(id@);
    let mut i: usize = 0;
    assert(all@.skip(0) == all@);
    while i < all.len()
        invariant
            i <= all.len(),
            has_id == (|x: NodePtr| attribute_of(dom@[x as int], "id"@) == Some(id@)),
            all@ == preorder(dom@, node, dom@.len()),
            forall|j: int| 0 <= j < all@.len() ==> #[trigger] all@[j] < dom@.len(),
            first_match(all@.skip(i as int), has_id) == first_match(all@, has_id),
        decreases all.len() - i,
    {
        if let Some(v) = attribute(dom, all[i], "id") {
            if text_eq(v.as_str(), id) {
                assert(has_id(all@.skip(i as int)[0]));
                return Some(all[i]);
            }
        }
        proof {
            assert(!has_id(all@.skip(i as int)[0]));
            assert(all@.skip(i as int).drop_first() == all@.skip(i + 1));
        }
        i = i + 1;
    }
    None
}

/// Whether a node is an element whose tag name is `tag` up to ASCII case;
/// `*` stands for every tag name.
pub open spec fn tag_matches(n: NodeView, tag: Seq<char>) -> bool {
    n matches NodeView::Element(el) && (tag == "*"@ || same_ignoring_case(el.tag_name, tag))
}

/// Appends the elements at or below `node` with the given tag name.
pub fn collect_by_tag(dom: &Dom, node: NodePtr, tag: &str, out: &mut Vec<NodePtr>)
    requires
        dom.wf(),
        finite_from(dom@, node, Reach::Children),
    ensures
        final(out)@ == old(out)@ + preorder(dom@, node, dom@.len()).filter(
            |x: NodePtr| tag_matches(dom@[x as int], tag@),
        ),
{
    let all = descendants(dom, node);
    let ghost p = |x: NodePtr| tag_matches(dom@[x as int], tag@);
    let ghost start = out@;
    let mut i: usize = 0;
    proof {
        reveal(Seq::filter);
        assert(out@ =~= start + all@.take(0).filter(p));
    }
    while i < all.len()
        invariant
            i <= all.len(),
            p == (|x: NodePtr| tag_matches(dom@[x as int], tag@)),
            forall|j: int| 0 <= j < all@.len() ==> #[trigger] all@[j] < dom@.len(),
            out@ == start + all@.take(i as int).filter(p),
        decreases all.len() - i,
    {
        proof {
            reveal(Seq::filter);
            assert(all@.take(i + 1).drop_last() == all@.take(i as int));
        }
        if let Node::Element(el) = dom.node(all[i]) {
            if text_eq(tag, "*") || eq_ignore_ascii_case(el.tag_name.as_str(), tag) {
                out.push(all[i]);
            }
        }
        proof {
            assert(out@ =~= start + all@.take(i + 1).filter(p));
        }
        i = i + 1;
    }
    assert(all@.take(i as int) == all@);
}

/// Whether a node is an element with `class` among the words of its class
/// attribute.
pub open spec fn class_matches(n: NodeView, class: Seq<char>) -> bool {
    attribute_of(n, "class"@) matches Some(v) && words(v).contains(class)
}

/// Appends the elements at or below `node` that carry the given class.
pub fn collect_by_class(dom: &Dom, node: NodePtr, class: &str, out: &mut Vec<NodePtr>)
    requires
        dom.wf(),
        finite_from(dom@, node, Reach::Children),
    ensures
        final(out)@ == old(out)@ + preorder(dom@, node, dom@.len()).filter(
            |x: NodePtr| class_matches(dom@[x as int], class@),
        ),
{
    let all = descendants(dom, node);
    let ghost p = |x: NodePtr| class_matches(dom@[x as int], class@);
    let ghost start = out@;
    let mut i: usize = 0;
    proof {
        reveal(Seq::filter);
        assert(out@ =~= start + all@.take(0).filter(p));
    }
    while i < all.len()
        invariant
            i <= all.len(),
            p == (|x: NodePtr| class_matches(dom@[x as int], class@)),
            forall|j: int| 0 <= j < all@.len() ==> #[trigger] all@[j] < dom@.len(),
            out@ == start + all@.take(i as int).filter(p),
        decreases all.len() - i,
    {
        proof {
            reveal(Seq::filter);
            assert(all@.take(i + 1).drop_last() == all@.take(i as int));
        }
        if let Some(v) = attribute(dom, all[i], "class") {
            if has_word(v.as_str(), class) {
                out.push(all[i]);
            }
        }
        proof {
            assert(out@ =~= start + all@.take(i + 1).filter(p));
        }
        i = i + 1;
    }
    assert(all@.take(i as int) == all@);
}

/// The node at or below `root` that owns `target`, through a child list or as
/// template contents, found by a walk in document order.
pub open spec fn scanned_parent(d: DomView, root: NodePtr, target: NodePtr, fuel: nat) -> Option<
    NodePtr,
>
    decreases fuel, 1nat, 0nat,
{
    scanned_parent_among(d, followed(d[root as int], Reach::Inert), root, target, fuel)
}

/// [`scanned_parent`] among the nodes that `root` owns.
pub open spec fn scanned_parent_among(
    d: DomView,
    kids: Seq<NodePtr>,
    root: NodePtr,
    target: NodePtr,
    fuel: nat,
) -> Option<NodePtr>
    decreases fuel, 0nat, kids.len(),
{
    if kids.len() == 0 || fuel == 0 {
        None
    } else {
        match scanned_parent_among(d, kids.drop_last(), root, target, fuel) {
            Some(p) => Some(p),
            None => if kids.last() == target {
                Some(root)
            } else {
                scanned_parent(d, kids.last(), target, (fuel - 1) as nat)
            },
        }
    }
}

fn find_parent_scan(dom: &Dom, root: NodePtr, target: NodePtr, Ghost(fuel): Ghost<nat>) -> (res:
    Option<NodePtr>)
    requires
        dom.wf(),
        ends_within(dom@, root, Reach::Inert, fuel),
    ensures
        res == scanned_parent(dom@, root, target, fuel),
        res matches Some(p) ==> p < dom@.len(),
    decreases fuel,
{
    let mut kids = child_nodes(dom, root);
    if let Some(content) = template_contents(dom, root) {
        kids.push(content);
    }
    proof {
        assert(kids@ =~= followed(dom@[root as int], Reach::Inert));
    }
    let mut i: usize = 0;
    while i < kids.len()
        invariant
            i <= kids.len(),
            dom.wf(),
            ends_within(dom@, root, Reach::Inert, fuel),
            kids@ == followed(dom@[root as int], Reach::Inert),
            scanned_parent_among(dom@, kids@.take(i as int), root, target, fuel) is None,
        decreases kids.len() - i,
    {
        let kid: NodePtr = kids[i];
        proof {
            let next = kids@.take(i + 1);
            assert(next.drop_last() == kids@.take(i as int));
            assert(next.last() == kid);
            assert(followed(dom@[root as int], Reach::Inert)[i as int] == kid);
        }
        if kid == target {
            proof {
                lemma_scan_prefix(dom@, kids@, i + 1, root, target, fuel);
            }
            return Some(root);
        }
        if let Some(found) = find_parent_scan(dom, kid, target, Ghost((fuel - 1) as nat)) {
            proof {
                lemma_scan_prefix(dom@, kids@, i + 1, root, target, fuel);
            }
            return Some(found);
        }
        i = i + 1;
    }
    assert(kids@.take(i as int) == kids@);
    None
}

/// What a walk finds among the first nodes it finds among all.
proof fn lemma_scan_prefix(
    d: DomView,
    kids: Seq<NodePtr>,
    n: int,
    root: NodePtr,
    target: NodePtr,
    fuel: nat,
)
    requires
        0 <= n <= kids.len(),
        scanned_parent_among(d, kids.take(n), root, target, fuel) is Some,
    ensures
        scanned_parent_among(d, kids, root, target, fuel) == scanned_parent_among(
            d,
            kids.take(n),
            root,
            target,
            fuel,
        ),
    decreases kids.len(),
{
    if n == kids.len() {
        assert(kids.take(n) == kids);
    } else {
        assert(kids.drop_last().take(n) =~= kids.take(n));
        lemma_scan_prefix(d, kids.drop_last(), n, root, target, fuel);
    }
}

/// Whether `target` is in the child list of `parent`.
pub fn is_direct_child(dom: &Dom, parent: NodePtr, target: NodePtr) -> (res: bool)
    requires
        parent < dom@.len(),
    ensures
        res == children_of(dom@[parent as int]).contains(target),
{
    let kids = child_nodes(dom, parent);
    let at: usize = position_of(&kids, target);
    at < kids.len()
}

/// Whether `target` is `parent`'s shadow root or template contents.
pub fn is_retained_subtree_root(dom: &Dom, parent: NodePtr, target: NodePtr) -> (res: bool)
    requires
        parent < dom@.len(),
    ensures
        res == retained_of(dom@[parent as int]).contains(target),
{
    let kids = crate::dom::node::retained_nodes(dom, parent);
    let at: usize = position_of(&kids, target);
    at < kids.len()
}

/// Whether `target`'s parent pointer names a node that really owns it.
pub open spec fn parent_is_current(d: DomView, target: NodePtr) -> bool {
    parent_of(d[target as int]) matches Some(p) ==> children_of(d[p as int]).contains(target)
        || retained_of(d[p as int]).contains(target)
}

/// The arena after a look-up of `target`'s parent and what it found. A pointer
/// whose node does not own `target` is stale: the tree of `root` is searched
/// for the owner and the pointer repaired or cleared.
pub open spec fn found_parent(d: DomView, root: NodePtr, target: NodePtr) -> (
    DomView,
    Option<NodePtr>,
) {
    if parent_is_current(d, target) {
        (d, parent_of(d[target as int]))
    } else {
        let p = scanned_parent(d, root, target, d.len());
        (reparented(d, target, p), p)
    }
}

/// The parent of `target`, with a stale parent pointer repaired on the way.
pub fn find_parent(dom: &mut Dom, root: NodePtr, target: NodePtr) -> (res: Option<NodePtr>)
    requires
        old(dom).wf(),
        target < old(dom)@.len(),
        !parent_is_current(old(dom)@, target) ==> finite_from(old(dom)@, root, Reach::Inert),
    ensures
        final(dom).wf(),
        (final(dom)@, res) == found_parent(old(dom)@, root, target),
        res matches Some(p) ==> p < final(dom)@.len(),
{
    let parent: NodePtr = match parent_ptr(dom, target) {
        Some(p) => p,
        None => {
            return None;
        },
    };
    proof {
        assert(node_ok(dom@[target as int], dom@.len()));
    }
    if is_direct_child(dom, parent, target) {
        return Some(parent);
    }
    if is_retained_subtree_root(dom, parent, target) {
        return Some(parent);
    }
    let found = find_parent_scan(dom, root, target, Ghost(dom@.len()));
    match found {
        Some(p) => set_parent(dom, target, p),
        None => clear_parent(dom, target),
    }
    found
}

/// What matching reads of a node; only elements have it.
pub open spec fn data_of(n: NodeView) -> Option<ElementDataView> {
    match n {
        NodeView::Element(el) => Some(
            ElementDataView {
                tag_name: el.tag_name,
                attributes: el.attributes,
                custom_element_defined: el.custom_element_defined,
            },
        ),
        _ => None,
    }
}

/// What matching reads of `node`.
pub fn element_data_of(dom: &Dom, node: NodePtr) -> (res: Option<ElementData>)
    requires
        node < dom@.len(),
    ensures
        res is Some == data_of(dom@[node as int]) is Some,
        res matches Some(data) ==> data@ == data_of(dom@[node as int])->0,
{
    match dom.node(node) {
        Node::Element(el) => Some(
            ElementData {
                tag_name: el.tag_name.clone(),
                attributes: el.attributes.clone(),
                custom_element_defined: el.custom_element_defined,
            },
        ),
        _ => None,
    }
}

/// Whether repeated parent look-ups from `target` end within `fuel` steps.
pub open spec fn lookups_end(d: DomView, root: NodePtr, target: NodePtr, fuel: nat) -> bool
    decreases fuel,
{
    let (e, parent) = found_parent(d, root, target);
    parent matches Some(p) ==> fuel > 0 && lookups_end(e, root, p, (fuel - 1) as nat)
}

/// The arena after the ancestors of `target` have been looked up, and the data
/// of the elements among them, outermost first.
pub open spec fn ancestor_chain(d: DomView, root: NodePtr, target: NodePtr, fuel: nat) -> (
    DomView,
    Seq<ElementDataView>,
)
    decreases fuel,
{
    let (e, parent) = found_parent(d, root, target);
    match parent {
        Some(p) => if fuel == 0 {
            (e, Seq::empty())
        } else {
            let (f, chain) = ancestor_chain(e, root, p, (fuel - 1) as nat);
            match data_of(f[p as int]) {
                Some(data) => (f, chain.push(data)),
                None => (f, chain),
            }
        },
        None => (e, Seq::empty()),
    }
}

/// A parent look-up changes no links.
pub proof fn lemma_found_parent_links(d: DomView, root: NodePtr, target: NodePtr, reach: Reach)
    requires
        target < d.len(),
    ensures
        same_links(d, found_parent(d, root, target).0, reach),
        found_parent(d, root, target).0.len() == d.len(),
{
    let e = found_parent(d, root, target).0;
    assert forall|i: int| 0 <= i < d.len() implies followed(#[trigger] d[i], reach) == followed(
        e[i],
        reach,
    ) by {
        if i == target {
        }
    }
}

/// The data of `target`'s element ancestors, outermost first.
pub fn build_ancestor_chain(dom: &mut Dom, root: NodePtr, target: NodePtr) -> (res: Vec<ElementData>)
    requires
        old(dom).wf(),
        target < old(dom)@.len(),
        finite_from(old(dom)@, root, Reach::Inert),
        lookups_end(old(dom)@, root, target, old(dom)@.len()),
    ensures
        final(dom).wf(),
        (final(dom)@, data_views(res@)) == ancestor_chain(
            old(dom)@,
            root,
            target,
            old(dom)@.len(),
        ),
        same_links(old(dom)@, final(dom)@, Reach::Children),
        same_links(old(dom)@, final(dom)@, Reach::Inert),
        final(dom)@.len() == old(dom)@.len(),
{
    proof {
        lemma_chain_links(dom@, root, target, Reach::Inert, dom@.len());
    }
    ancestors_within(dom, root, target, Ghost(dom@.len()))
}

fn ancestors_within(dom: &mut Dom, root: NodePtr, target: NodePtr, Ghost(fuel): Ghost<nat>) -> (res:
    Vec<ElementData>)
    requires
        old(dom).wf(),
        target < old(dom)@.len(),
        finite_from(old(dom)@, root, Reach::Inert),
        lookups_end(old(dom)@, root, target, fuel),
    ensures
        final(dom).wf(),
        (final(dom)@, data_views(res@)) == ancestor_chain(old(dom)@, root, target, fuel),
        same_links(old(dom)@, final(dom)@, Reach::Children),
        final(dom)@.len() == old(dom)@.len(),
    decreases fuel,
{
    let ghost d = dom@;
    let parent = find_parent(dom, root, target);
    proof {
        lemma_found_parent_links(d, root, target, Reach::Inert);
        lemma_found_parent_links(d, root, target, Reach::Children);
        lemma_same_links(d, dom@, root, Reach::Inert, d.len());
    }
    match parent {
        Some(p) => {
            let ghost e = dom@;
            let mut chain = ancestors_within(dom, root, p, Ghost((fuel - 1) as nat));
            let ghost views = data_views(chain@);
            if let Some(data) = element_data_of(dom, p) {
                chain.push(data);
                assert(data_views(chain@) =~= views.push(data@));
            }
            proof {
                assert forall|i: int| 0 <= i < d.len() implies followed(
                    #[trigger] d[i],
                    Reach::Children,
                ) == followed(dom@[i], Reach::Children) by {
                    assert(followed(e[i], Reach::Children) == followed(dom@[i], Reach::Children));
                }
            }
            chain
        },
        None => {
            let res: Vec<ElementData> = Vec::new();
            assert(data_views(res@) =~= Seq::<ElementDataView>::empty());
            res
        },
    }
}

/// The data of the elements of a node list, in order.
pub open spec fn elements_of(d: DomView, kids: Seq<NodePtr>) -> Seq<ElementDataView>
    decreases kids.len(),
{
    if kids.len() == 0 {
        Seq::empty()
    } else {
        match data_of(d[kids.last() as int]) {
            Some(data) => elements_of(d, kids.drop_last()).push(data),
            None => elements_of(d, kids.drop_last()),
        }
    }
}

/// The data of the elements of a node list.
pub fn element_data_list(dom: &Dom, kids: &Vec<NodePtr>) -> (res: Vec<ElementData>)
    requires
        forall|i: int| 0 <= i < kids@.len() ==> #[trigger] kids@[i] < dom@.len(),
    ensures
        data_views(res@) == elements_of(dom@, kids@),
{
    let mut res: Vec<ElementData> = Vec::new();
    let mut i: usize = 0;
    assert(data_views(res@) =~= elements_of(dom@, kids@.take(0)));
    while i < kids.len()
        invariant
            i <= kids.len(),
            forall|i: int| 0 <= i < kids@.len() ==> #[trigger] kids@[i] < dom@.len(),
            data_views(res@) == elements_of(dom@, kids@.take(i as int)),
        decreases kids.len() - i,
    {
        let ghost views = data_views(res@);
        proof {
            let next = kids@.take(i + 1);
            assert(next.drop_last() == kids@.take(i as int));
            assert(next.last() == kids@[i as int]);
        }
        if let Some(data) = element_data_of(dom, kids[i]) {
            res.push(data);
            assert(data_views(res@) =~= views.push(data@));
        }
        i = i + 1;
    }
    assert(kids@.take(i as int) == kids@);
    res
}

/// The data of the elements among which `target` stands; none without parent.
pub fn build_sibling_list(dom: &mut Dom, root: NodePtr, target: NodePtr) -> (res: Vec<ElementData>)
    requires
        old(dom).wf(),
        target < old(dom)@.len(),
        !parent_is_current(old(dom)@, target) ==> finite_from(old(dom)@, root, Reach::Inert),
    ensures
        final(dom).wf(),
        final(dom)@ == found_parent(old(dom)@, root, target).0,
        data_views(res@) == (match found_parent(old(dom)@, root, target).1 {
            Some(p) => elements_of(final(dom)@, children_of(final(dom)@[p as int])),
            None => Seq::empty(),
        }),
{
    match find_parent(dom, root, target) {
        Some(p) => {
            let kids = child_nodes(dom, p);
            proof {
                assert(node_ok(dom@[p as int], dom@.len()));
            }
            element_data_list(dom, &kids)
        },
        None => {
            let res: Vec<ElementData> = Vec::new();
            assert(data_views(res@) =~= Seq::<ElementDataView>::empty());
            res
        },
    }
}

/// How many elements stand before the first `target` in a node list; zero where
/// it is not in the list.
pub open spec fn element_index(d: DomView, kids: Seq<NodePtr>, target: NodePtr) -> nat {
    if kids.contains(target) {
        elements_of(d, kids.take(crate::js::mutation::index_in(kids, target) as int)).len()
    } else {
        0
    }
}

/// The position of `target` among its element siblings.
pub fn sibling_index_of(dom: &mut Dom, root: NodePtr, target: NodePtr) -> (res: usize)
    requires
        old(dom).wf(),
        target < old(dom)@.len(),
        !parent_is_current(old(dom)@, target) ==> finite_from(old(dom)@, root, Reach::Inert),
    ensures
        final(dom).wf(),
        final(dom)@ == found_parent(old(dom)@, root, target).0,
        res == (match found_parent(old(dom)@, root, target).1 {
            Some(p) => element_index(final(dom)@, children_of(final(dom)@[p as int]), target),
            None => 0,
        }),
{
    match find_parent(dom, root, target) {
        Some(p) => {
            let kids = child_nodes(dom, p);
            proof {
                assert(node_ok(dom@[p as int], dom@.len()));
            }
            let at: usize = position_of(&kids, target);
            if at == kids.len() {
                return 0;
            }
            let mut index: usize = 0;
            let mut i: usize = 0;
            while i < at
                invariant
                    i <= at < kids.len(),
                    index <= i,
                    forall|j: int| 0 <= j < kids@.len() ==> #[trigger] kids@[j] < dom@.len(),
                    index == elements_of(dom@, kids@.take(i as int)).len(),
                decreases at - i,
            {
                proof {
                    let next = kids@.take(i + 1);
                    assert(next.drop_last() == kids@.take(i as int));
                    assert(next.last() == kids@[i as int]);
                }
                if crate::dom::node::is_element_node(dom, kids[i]) {
                    index = index + 1;
                }
                i = i + 1;
            }
            index
        },
        None => 0,
    }
}

/// A node that a search finds owns what was searched for.
pub proof fn lemma_scan_owns(d: DomView, root: NodePtr, target: NodePtr, fuel: nat)
    requires
        closed_links(d),
        root < d.len(),
    ensures
        scanned_parent(d, root, target, fuel) matches Some(p) ==> p < d.len() && followed(
            d[p as int],
            Reach::Inert,
        ).contains(target),
    decreases fuel, 1nat, 0nat,
{
    let kids = followed(d[root as int], Reach::Inert);
    assert(node_ok(d[root as int], d.len()));
    assert forall|i: int| 0 <= i < kids.len() implies #[trigger] kids[i] < d.len() by {}
    lemma_scan_owns_among(d, kids, root, target, fuel);
}

proof fn lemma_scan_owns_among(
    d: DomView,
    kids: Seq<NodePtr>,
    root: NodePtr,
    target: NodePtr,
    fuel: nat,
)
    requires
        closed_links(d),
        root < d.len(),
        forall|i: int|
            0 <= i < kids.len() ==> #[trigger] kids[i] < d.len() && followed(
                d[root as int],
                Reach::Inert,
            ).contains(kids[i]),
    ensures
        scanned_parent_among(d, kids, root, target, fuel) matches Some(p) ==> p < d.len()
            && followed(d[p as int], Reach::Inert).contains(target),
    decreases fuel, 0nat, kids.len(),
{
    if kids.len() > 0 && fuel > 0 {
        let front = kids.drop_last();
        assert forall|i: int| 0 <= i < front.len() implies #[trigger] front[i] < d.len()
            && followed(d[root as int], Reach::Inert).contains(front[i]) by {
            assert(front[i] == kids[i]);
        }
        lemma_scan_owns_among(d, front, root, target, fuel);
        assert(kids[kids.len() - 1] == kids.last());
        lemma_scan_owns(d, kids.last(), target, (fuel - 1) as nat);
    }
}

/// A parent look-up repairs once: looking again finds the same parent and
/// changes nothing.
pub proof fn law_parent_lookup_repairs_once(d: DomView, root: NodePtr, target: NodePtr)
    requires
        closed_links(d),
        root < d.len(),
        target < d.len(),
    ensures
        ({
            let (e, parent) = found_parent(d, root, target);
            found_parent(e, root, target) == (e, parent)
        }),
{
    let (e, parent) = found_parent(d, root, target);
    if !parent_is_current(d, target) {
        lemma_scan_owns(d, root, target, d.len());
        if let Some(p) = parent {
            let list = followed(d[p as int], Reach::Inert);
            let i = choose|i: int| 0 <= i < list.len() && list[i] == target;
            assert(followed(e[p as int], Reach::Inert) == list);
            if let NodeView::Element(el) = d[p as int] {
                if i < el.children.len() {
                    assert(el.children[i] == target);
                    assert(children_of(e[p as int]).contains(target));
                } else {
                    assert(el.template_contents == Some(target));
                    assert(retained_of(e[p as int])[0] == target);
                    assert(retained_of(e[p as int]).contains(target));
                }
            } else {
                assert(children_of(e[p as int])[i] == target);
                assert(children_of(e[p as int]).contains(target));
            }
            assert(parent_of(e[target as int]) == Some(p));
        }
    }
}

/// An element that a query considers, with its matching context.
pub struct Candidate {
    pub node: NodePtr,
    pub data: ElementDataView,
    /// Element ancestors, outermost first.
    pub ancestors: Seq<ElementDataView>,
    /// Elements of the same child list.
    pub siblings: Seq<ElementDataView>,
    /// Position among the siblings.
    pub index: nat,
}

/// The elements at or below `n` in document order, each with its context; `n`
/// itself is left out with `skip_self`.
pub open spec fn candidates(
    d: DomView,
    n: NodePtr,
    ancestors: Seq<ElementDataView>,
    siblings: Seq<ElementDataView>,
    index: nat,
    skip_self: bool,
    fuel: nat,
) -> Seq<Candidate>
    decreases fuel, 1nat, 0nat,
{
    let own = match data_of(d[n as int]) {
        Some(data) => if skip_self {
            Seq::empty()
        } else {
            seq![Candidate { node: n, data, ancestors, siblings, index }]
        },
        None => Seq::empty(),
    };
    let path = match data_of(d[n as int]) {
        Some(data) => ancestors.push(data),
        None => ancestors,
    };
    own + candidates_among(d, children_of(d[n as int]), children_of(d[n as int]), path, fuel)
}

/// The candidates of the first nodes `kids` of the child list `all`.
pub open spec fn candidates_among(
    d: DomView,
    kids: Seq<NodePtr>,
    all: Seq<NodePtr>,
    path: Seq<ElementDataView>,
    fuel: nat,
) -> Seq<Candidate>
    decreases fuel, 0nat, kids.len(),
{
    if kids.len() == 0 || fuel == 0 {
        Seq::empty()
    } else {
        let front = kids.drop_last();
        let index = if d[kids.last() as int] is Element {
            elements_of(d, front).len()
        } else {
            0
        };
        candidates_among(d, front, all, path, fuel) + candidates(
            d,
            kids.last(),
            path,
            elements_of(d, all),
            index,
            false,
            (fuel - 1) as nat,
        )
    }
}

/// Whether the matcher `f` may answer `verdict` on a candidate.
pub open spec fn answers<F: Fn(&ElementData, &Vec<ElementData>, &Vec<ElementData>, usize) -> bool>(
    f: F,
    c: Candidate,
    verdict: bool,
) -> bool {
    exists|data: ElementData, ancestors: Vec<ElementData>, siblings: Vec<ElementData>, index: usize|
        data@ == c.data && data_views(ancestors@) == c.ancestors && data_views(siblings@)
            == c.siblings && index == c.index && #[trigger] call_ensures(
            f,
            (&data, &ancestors, &siblings, index),
            verdict,
        )
}

/// Whether `f` may answer `verdicts` on a list of candidates, one by one.
pub open spec fn answers_all<
    F: Fn(&ElementData, &Vec<ElementData>, &Vec<ElementData>, usize) -> bool,
>(f: F, cs: Seq<Candidate>, verdicts: Seq<bool>) -> bool {
    &&& cs.len() == verdicts.len()
    &&& forall|i: int| 0 <= i < cs.len() ==> answers(f, #[trigger] cs[i], verdicts[i])
}

/// The nodes of the candidates that were accepted, in order.
pub open spec fn accepted(cs: Seq<Candidate>, verdicts: Seq<bool>) -> Seq<NodePtr>
    decreases cs.len(),
{
    if cs.len() == 0 || verdicts.len() == 0 {
        Seq::empty()
    } else if verdicts.last() {
        accepted(cs.drop_last(), verdicts.drop_last()).push(cs.last().node)
    } else {
        accepted(cs.drop_last(), verdicts.drop_last())
    }
}

proof fn lemma_accepted_add(a: Seq<Candidate>, v: Seq<bool>, b: Seq<Candidate>, w: Seq<bool>)
    requires
        a.len() == v.len(),
        b.len() == w.len(),
    ensures
        accepted(a + b, v + w) == accepted(a, v) + accepted(b, w),
    decreases b.len(),
{
    if b.len() == 0 {
        assert(a + b =~= a);
        assert(v + w =~= v);
        assert(accepted(a, v) + accepted(b, w) =~= accepted(a, v));
    } else {
        assert((a + b).drop_last() =~= a + b.drop_last());
        assert((v + w).drop_last() =~= v + w.drop_last());
        lemma_accepted_add(a, v, b.drop_last(), w.drop_last());
        if w.last() {
            assert(accepted(a, v) + accepted(b, w) =~= (accepted(a, v) + accepted(
                b.drop_last(),
                w.drop_last(),
            )).push(b.last().node));
        }
    }
}

proof fn lemma_answers_add<
    F: Fn(&ElementData, &Vec<ElementData>, &Vec<ElementData>, usize) -> bool,
>(f: F, a: Seq<Candidate>, v: Seq<bool>, b: Seq<Candidate>, w: Seq<bool>)
    requires
        answers_all(f, a, v),
        answers_all(f, b, w),
    ensures
        answers_all(f, a + b, v + w),
{
    let c = a + b;
    let u = v + w;
    assert forall|i: int| 0 <= i < c.len() implies answers(f, #[trigger] c[i], u[i]) by {
        if i < a.len() {
            assert(answers(f, a[i], v[i]));
        } else {
            assert(answers(f, b[i - a.len()], w[i - a.len()]));
        }
    }
}

/// What is considered among the first children comes first.
proof fn lemma_among_prefix(
    d: DomView,
    kids: Seq<NodePtr>,
    n: int,
    all: Seq<NodePtr>,
    path: Seq<ElementDataView>,
    fuel: nat,
)
    requires
        0 <= n <= kids.len(),
    ensures
        ({
            let part = candidates_among(d, kids.take(n), all, path, fuel);
            let whole = candidates_among(d, kids, all, path, fuel);
            part.len() <= whole.len() && whole.take(part.len() as int) == part
        }),
    decreases kids.len(),
{
    let part = candidates_among(d, kids.take(n), all, path, fuel);
    let whole = candidates_among(d, kids, all, path, fuel);
    if n == kids.len() {
        assert(kids.take(n) == kids);
        assert(whole.take(part.len() as int) =~= part);
    } else if fuel == 0 {
        assert(whole.take(part.len() as int) =~= part);
    } else {
        assert(kids.drop_last().take(n) =~= kids.take(n));
        lemma_among_prefix(d, kids.drop_last(), n, all, path, fuel);
        let most = candidates_among(d, kids.drop_last(), all, path, fuel);
        assert(whole.take(part.len() as int) =~= most.take(part.len() as int));
    }
}

/// Whether the verdicts are those of a walk over `cs` that ends at the first
/// accepted candidate when `stopped` and at the end otherwise.
pub open spec fn walked<F: Fn(&ElementData, &Vec<ElementData>, &Vec<ElementData>, usize) -> bool>(
    f: F,
    cs: Seq<Candidate>,
    verdicts: Seq<bool>,
    first_only: bool,
    stopped: bool,
) -> bool {
    &&& verdicts.len() <= cs.len()
    &&& answers_all(f, cs.take(verdicts.len() as int), verdicts)
    &&& !stopped ==> verdicts.len() == cs.len()
    &&& stopped ==> first_only && verdicts.len() > 0 && verdicts.last()
    &&& first_only ==> forall|i: int|
        0 <= i < verdicts.len() && !(stopped && i == verdicts.len() - 1) ==> !#[trigger] verdicts[i]
}

/// Walks the tree and collects the elements that `matcher` accepts, or the
/// first of them alone with `first_only`.
///
/// `ancestors` is the live path from the outermost element to the parent; it
/// grows on descent and is restored on return, so that the whole walk is linear
/// in the number of nodes.
fn collect_matches<F: Fn(&ElementData, &Vec<ElementData>, &Vec<ElementData>, usize) -> bool>(
    dom: &Dom,
    node: NodePtr,
    ancestors: &mut Vec<ElementData>,
    siblings: &Vec<ElementData>,
    index: usize,
    skip_self: bool,
    first_only: bool,
    matcher: &F,
    out: &mut Vec<NodePtr>,
    Ghost(fuel): Ghost<nat>,
) -> (res: (bool, Ghost<Seq<bool>>))
    requires
        dom.wf(),
        ends_within(dom@, node, Reach::Children, fuel),
        forall|a: &ElementData, b: &Vec<ElementData>, c: &Vec<ElementData>, i: usize|
            call_requires(*matcher, (a, b, c, i)),
    ensures
        final(ancestors)@ == old(ancestors)@,
        ({
            let cs = candidates(
                dom@,
                node,
                data_views(old(ancestors)@),
                data_views(siblings@),
                index as nat,
                skip_self,
                fuel,
            );
            &&& walked(*matcher, cs, res.1@, first_only, res.0)
            &&& final(out)@ == old(out)@ + accepted(cs.take(res.1@.len() as int), res.1@)
        }),
    decreases fuel,
{
    let ghost d = dom@;
    let ghost above = data_views(ancestors@);
    let ghost start = out@;
    let ghost whole = candidates(
        d,
        node,
        above,
        data_views(siblings@),
        index as nat,
        skip_self,
        fuel,
    );
    let ghost mut seen: Seq<Candidate> = Seq::empty();
    let ghost mut said: Seq<bool> = Seq::empty();
    let own = element_data_of(dom, node);
    if !skip_self {
        if let Some(data) = &own {
            let matched = matcher(data, ancestors, siblings, index);
            if matched {
                out.push(node);
            }
            proof {
                let c = Candidate {
                    node,
                    data: data@,
                    ancestors: above,
                    siblings: data_views(siblings@),
                    index: index as nat,
                };
                assert(answers(*matcher, c, matched));
                seen = seq![c];
                said = seq![matched];
                reveal_with_fuel(accepted, 2);
                assert(seen.drop_last() =~= Seq::<Candidate>::empty());
                assert(said.drop_last() =~= Seq::<bool>::empty());
                assert(out@ =~= start + accepted(seen, said));
                assert(whole.take(1) =~= seen);
            }
            if matched && first_only {
                return (true, Ghost(said));
            }
        }
    }
    proof {
        if seen.len() == 0 {
            assert(out@ =~= start + accepted(seen, said));
        }
    }
    let kids = child_nodes(dom, node);
    proof {
        assert(node_ok(dom@[node as int], dom@.len()));
    }
    let child_siblings = element_data_list(dom, &kids);
    let ghost before = ancestors@;
    let pushed = match own {
        Some(data) => {
            ancestors.push(data);
            assert(data_views(ancestors@) =~= above.push(data@));
            true
        },
        None => false,
    };
    let ghost path = data_views(ancestors@);
    let ghost deep = ancestors@;
    let ghost head = seen;
    let mut stopped = false;
    let mut element_position: usize = 0;
    let mut i: usize = 0;
    proof {
        assert(seen =~= head + candidates_among(d, kids@.take(0), kids@, path, fuel));
        assert(whole == head + candidates_among(d, kids@, kids@, path, fuel));
        assert(seen.take(said.len() as int) =~= seen);
        assert(whole.take(said.len() as int) =~= seen);
    }
    while i < kids.len() && !stopped
        invariant
            i <= kids.len(),
            dom.wf(),
            d == dom@,
            ends_within(d, node, Reach::Children, fuel),
            kids@ == children_of(d[node as int]),
            forall|j: int| 0 <= j < kids@.len() ==> #[trigger] kids@[j] < d.len(),
            forall|a: &ElementData, b: &Vec<ElementData>, c: &Vec<ElementData>, i: usize|
                call_requires(*matcher, (a, b, c, i)),
            data_views(child_siblings@) == elements_of(d, kids@),
            ancestors@ == deep,
            data_views(deep) == path,
            whole == head + candidates_among(d, kids@, kids@, path, fuel),
            !stopped ==> element_position <= i,
            !stopped ==> element_position == elements_of(d, kids@.take(i as int)).len(),
            !stopped ==> seen == head + candidates_among(
                d,
                kids@.take(i as int),
                kids@,
                path,
                fuel,
            ),
            seen.len() == said.len() <= whole.len(),
            whole.take(said.len() as int) == seen,
            answers_all(*matcher, seen, said),
            stopped ==> first_only && said.len() > 0 && said.last(),
            first_only ==> forall|k: int|
                0 <= k < said.len() && !(stopped && k == said.len() - 1) ==> !#[trigger] said[k],
            out@ == start + accepted(seen, said),
        decreases kids.len() - i,
    {
        let kid: NodePtr = kids[i];
        proof {
            let next = kids@.take(i + 1);
            assert(next.drop_last() == kids@.take(i as int));
            assert(next.last() == kid);
            assert(followed(d[node as int], Reach::Children)[i as int] == kid);
        }
        let is_element = crate::dom::node::is_element_node(dom, kid);
        let kid_index: usize = if is_element {
            element_position
        } else {
            0
        };
        let (hit, more) = collect_matches(
            dom,
            kid,
            ancestors,
            &child_siblings,
            kid_index,
            false,
            first_only,
            matcher,
            out,
            Ghost((fuel - 1) as nat),
        );
        stopped = hit;
        proof {
            let cs = candidates(
                d,
                kid,
                path,
                elements_of(d, kids@),
                kid_index as nat,
                false,
                (fuel - 1) as nat,
            );
            let part = cs.take(more@.len() as int);
            lemma_answers_add(*matcher, seen, said, part, more@);
            lemma_accepted_add(seen, said, part, more@);
            let earlier = candidates_among(d, kids@.take(i as int), kids@, path, fuel);
            let upto = candidates_among(d, kids@.take(i + 1), kids@, path, fuel);
            lemma_among_prefix(d, kids@, i + 1, kids@, path, fuel);
            assert(upto == earlier + cs);
            assert((start + accepted(seen, said)) + accepted(part, more@) =~= start + (accepted(
                seen,
                said,
            ) + accepted(part, more@)));
            let all = candidates_among(d, kids@, kids@, path, fuel);
            let total = seen.len() + more@.len();
            assert(whole.take(total as int) =~= seen + part) by {
                assert forall|k: int| 0 <= k < total implies whole[k] == (seen + part)[k] by {
                    if k < head.len() {
                    } else {
                        assert(whole[k] == all[k - head.len()]);
                        assert(all.take(upto.len() as int)[k - head.len()] == upto[k
                            - head.len()]);
                        if k < seen.len() {
                            assert(seen[k] == earlier[k - head.len()]);
                        } else {
                            assert(upto[k - head.len()] == cs[k - seen.len()]);
                        }
                    }
                }
            }
            if !hit {
                assert(part =~= cs);
                assert((head + earlier) + cs =~= head + (earlier + cs));
            }
            let longer = said + more@;
            assert forall|k: int|
                first_only && 0 <= k < longer.len() && !(hit && k == longer.len()
                    - 1) implies !#[trigger] longer[k] by {
                if k < said.len() {
                    assert(!said[k]);
                } else {
                    assert(!more@[k - said.len()]);
                }
            }
            seen = seen + part;
            said = longer;
        }
        if is_element && !stopped {
            element_position = element_position + 1;
        }
        i = i + 1;
    }
    proof {
        if !stopped {
            assert(kids@.take(i as int) == kids@);
            assert(seen == whole);
        }
    }
    if pushed {
        let _ = ancestors.pop();
        assert(ancestors@ =~= before);
    }
    (stopped, Ghost(said))
}

/// The elements that a query from `start` considers, after the ancestors of
/// `start` have been looked up.
pub open spec fn considered(d: DomView, root: NodePtr, start: NodePtr) -> Seq<Candidate> {
    let (e, above) = ancestor_chain(d, root, start, d.len());
    candidates(e, start, above, Seq::empty(), 0, true, e.len())
}

/// Whether `nodes` are those of the candidates that `f` accepts, in order.
pub open spec fn finds_all<F: Fn(&ElementData, &Vec<ElementData>, &Vec<ElementData>, usize) -> bool>(
    f: F,
    cs: Seq<Candidate>,
    nodes: Seq<NodePtr>,
) -> bool {
    exists|verdicts: Seq<bool>|
        answers_all(f, cs, verdicts) && nodes == #[trigger] accepted(cs, verdicts)
}

/// Whether `node` is that of the first candidate that `f` accepts, if it
/// accepts any.
pub open spec fn finds_first<
    F: Fn(&ElementData, &Vec<ElementData>, &Vec<ElementData>, usize) -> bool,
>(f: F, cs: Seq<Candidate>, node: Option<NodePtr>) -> bool {
    match node {
        Some(n) => exists|i: int|
            0 <= i < cs.len() && n == (#[trigger] cs[i]).node && answers(f, cs[i], true)
                && forall|j: int| 0 <= j < i ==> answers(f, #[trigger] cs[j], false),
        None => forall|j: int| 0 <= j < cs.len() ==> answers(f, #[trigger] cs[j], false),
    }
}

/// Whether a query from `start` within the tree of `root` comes to an end.
pub open spec fn query_ends(d: DomView, root: NodePtr, start: NodePtr) -> bool {
    &&& finite_from(d, root, Reach::Inert)
    &&& lookups_end(d, root, start, d.len())
    &&& finite_from(d, start, Reach::Children)
}

fn query<F: Fn(&ElementData, &Vec<ElementData>, &Vec<ElementData>, usize) -> bool>(
    dom: &mut Dom,
    root: NodePtr,
    start: NodePtr,
    first_only: bool,
    matcher: &F,
) -> (res: (Vec<NodePtr>, bool, Ghost<Seq<bool>>))
    requires
        old(dom).wf(),
        query_ends(old(dom)@, root, start),
        forall|a: &ElementData, b: &Vec<ElementData>, c: &Vec<ElementData>, i: usize|
            call_requires(*matcher, (a, b, c, i)),
    ensures
        final(dom).wf(),
        final(dom)@ == ancestor_chain(old(dom)@, root, start, old(dom)@.len()).0,
        walked(*matcher, considered(old(dom)@, root, start), res.2@, first_only, res.1),
        res.0@ == accepted(
            considered(old(dom)@, root, start).take(res.2@.len() as int),
            res.2@,
        ),
{
    let ghost d = dom@;
    let mut ancestors = build_ancestor_chain(dom, root, start);
    proof {
        lemma_same_links(d, dom@, start, Reach::Children, d.len());
    }
    let mut out: Vec<NodePtr> = Vec::new();
    let none: Vec<ElementData> = Vec::new();
    assert(data_views(none@) =~= Seq::<ElementDataView>::empty());
    let (stopped, verdicts) = collect_matches(
        dom,
        start,
        &mut ancestors,
        &none,
        0,
        true,
        first_only,
        matcher,
        &mut out,
        Ghost(dom@.len()),
    );
    proof {
        let cs = considered(d, root, start);
        assert(out@ =~= accepted(cs.take(verdicts@.len() as int), verdicts@));
    }
    (out, stopped, verdicts)
}

/// All elements below `start`, in document order, that `matcher` accepts.
pub fn query_all<F: Fn(&ElementData, &Vec<ElementData>, &Vec<ElementData>, usize) -> bool>(
    dom: &mut Dom,
    root: NodePtr,
    start: NodePtr,
    matcher: &F,
) -> (res: Vec<NodePtr>)
    requires
        old(dom).wf(),
        query_ends(old(dom)@, root, start),
        forall|a: &ElementData, b: &Vec<ElementData>, c: &Vec<ElementData>, i: usize|
            call_requires(*matcher, (a, b, c, i)),
    ensures
        final(dom).wf(),
        final(dom)@ == ancestor_chain(old(dom)@, root, start, old(dom)@.len()).0,
        finds_all(*matcher, considered(old(dom)@, root, start), res@),
{
    let ghost cs = considered(dom@, root, start);
    let (res, _stopped, verdicts) = query(dom, root, start, false, matcher);
    proof {
        assert(cs.take(cs.len() as int) =~= cs);
        assert(res@ == accepted(cs, verdicts@));
    }
    res
}

/// The first element below `start`, in document order, that `matcher` accepts.
pub fn query_first<F: Fn(&ElementData, &Vec<ElementData>, &Vec<ElementData>, usize) -> bool>(
    dom: &mut Dom,
    root: NodePtr,
    start: NodePtr,
    matcher: &F,
) -> (res: Option<NodePtr>)
    requires
        old(dom).wf(),
        query_ends(old(dom)@, root, start),
        forall|a: &ElementData, b: &Vec<ElementData>, c: &Vec<ElementData>, i: usize|
            call_requires(*matcher, (a, b, c, i)),
    ensures
        final(dom).wf(),
        final(dom)@ == ancestor_chain(old(dom)@, root, start, old(dom)@.len()).0,
        finds_first(*matcher, considered(old(dom)@, root, start), res),
{
    let ghost cs = considered(dom@, root, start);
    let (found, stopped, verdicts) = query(dom, root, start, true, matcher);
    let ghost v = verdicts@;
    let ghost part = cs.take(v.len() as int);
    proof {
        assert forall|j: int| 0 <= j < v.len() implies answers(
            *matcher,
            #[trigger] cs[j],
            v[j],
        ) by {
            assert(part[j] == cs[j]);
        }
        if !stopped {
            lemma_none_accepted(part, v);
        } else {
            let less = part.drop_last();
            lemma_none_accepted(less, v.drop_last());
            assert(part.last() == cs[v.len() - 1]);
            assert(found@ =~= seq![cs[v.len() - 1].node]);
        }
    }
    if found.len() > 0 {
        proof {
            assert(stopped);
            let at = v.len() - 1;
            assert forall|j: int| 0 <= j < at implies answers(
                *matcher,
                #[trigger] cs[j],
                false,
            ) by {
                assert(!v[j]);
            }
            assert(answers(*matcher, cs[at], true));
        }
        Some(found[0])
    } else {
        proof {
            assert forall|j: int| 0 <= j < cs.len() implies answers(
                *matcher,
                #[trigger] cs[j],
                false,
            ) by {
                assert(!v[j]);
            }
        }
        None
    }
}

/// Where nothing is accepted nothing is found.
pub proof fn lemma_none_accepted(cs: Seq<Candidate>, verdicts: Seq<bool>)
    requires
        cs.len() == verdicts.len(),
        forall|i: int| 0 <= i < verdicts.len() ==> !#[trigger] verdicts[i],
    ensures
        accepted(cs, verdicts) == Seq::<NodePtr>::empty(),
    decreases cs.len(),
{
    if cs.len() > 0 {
        assert(!verdicts[verdicts.len() - 1]);
        let less = verdicts.drop_last();
        assert forall|i: int| 0 <= i < less.len() implies !#[trigger] less[i] by {
            assert(!verdicts[i]);
        }
        lemma_none_accepted(cs.drop_last(), less);
    }
}

/// The arena after the surroundings of the element `n` have been looked up, and
/// the element with its context.
pub open spec fn in_place(d: DomView, root: NodePtr, n: NodePtr) -> (DomView, Candidate) {
    let (e, ancestors) = ancestor_chain(d, root, n, d.len());
    let (f, parent) = found_parent(e, root, n);
    let (siblings, index) = match parent {
        Some(p) => (
            elements_of(f, children_of(f[p as int])),
            element_index(f, children_of(f[p as int]), n),
        ),
        None => (Seq::empty(), 0nat),
    };
    (f, Candidate { node: n, data: data_of(d[n as int])->0, ancestors, siblings, index })
}

/// Whether `matcher` accepts `node` in its place in the tree of `root`. A node
/// that is no element matches nothing.
pub fn selector_matches<F: Fn(&ElementData, &Vec<ElementData>, &Vec<ElementData>, usize) -> bool>(
    dom: &mut Dom,
    node: NodePtr,
    root: NodePtr,
    matcher: &F,
) -> (res: bool)
    requires
        old(dom).wf(),
        node < old(dom)@.len(),
        finite_from(old(dom)@, root, Reach::Inert),
        lookups_end(old(dom)@, root, node, old(dom)@.len()),
        forall|a: &ElementData, b: &Vec<ElementData>, c: &Vec<ElementData>, i: usize|
            call_requires(*matcher, (a, b, c, i)),
    ensures
        final(dom).wf(),
        !(old(dom)@[node as int] is Element) ==> !res && final(dom)@ == old(dom)@,
        old(dom)@[node as int] is Element ==> {
            &&& final(dom)@ == in_place(old(dom)@, root, node).0
            &&& answers(*matcher, in_place(old(dom)@, root, node).1, res)
        },
        final(dom)@.len() == old(dom)@.len(),
{
    let ghost d = dom@;
    match element_data_of(dom, node) {
        None => false,
        Some(data) => {
            let ancestors = build_ancestor_chain(dom, root, node);
            let ghost e = dom@;
            proof {
                lemma_same_links(d, e, root, Reach::Inert, d.len());
            }
            let siblings = build_sibling_list(dom, root, node);
            let ghost f = dom@;
            proof {
                lemma_found_parent_links(e, root, node, Reach::Inert);
                lemma_same_links(e, f, root, Reach::Inert, e.len());
                lemma_same_links(d, e, root, Reach::Inert, d.len());
                assert(node_ok(e[node as int], e.len()));
                law_parent_lookup_repairs_once(e, root, node);
            }
            let index: usize = sibling_index_of(dom, root, node);
            matcher(&data, &ancestors, &siblings, index)
        },
    }
}

/// Looking up ancestors changes no links and no kind of a node.
pub proof fn lemma_chain_links(
    d: DomView,
    root: NodePtr,
    target: NodePtr,
    reach: Reach,
    fuel: nat,
)
    requires
        closed_links(d),
        target < d.len(),
        root < d.len(),
    ensures
        same_links(d, ancestor_chain(d, root, target, fuel).0, reach),
        ancestor_chain(d, root, target, fuel).0.len() == d.len(),
        forall|i: int|
            0 <= i < d.len() ==> (#[trigger] ancestor_chain(d, root, target, fuel).0[i] is Element
                <==> d[i] is Element),
    decreases fuel,
{
    let (e, parent) = found_parent(d, root, target);
    lemma_found_parent_links(d, root, target, reach);
    if let Some(p) = parent {
        if fuel > 0 {
            assert(node_ok(d[target as int], d.len()));
            lemma_scan_owns(d, root, target, d.len());
            assert(p < d.len());
            assert(closed_links(e)) by {
                assert forall|i: int| 0 <= i < e.len() implies node_ok(#[trigger] e[i], e.len()) by {
                    assert(node_ok(d[i], d.len()));
                }
            }
            lemma_chain_links(e, root, p, reach, (fuel - 1) as nat);
            let f = ancestor_chain(e, root, p, (fuel - 1) as nat).0;
            assert forall|i: int| 0 <= i < d.len() implies followed(#[trigger] d[i], reach)
                == followed(f[i], reach) by {
                assert(followed(e[i], reach) == followed(f[i], reach));
            }
            assert forall|i: int| 0 <= i < d.len() implies (#[trigger] f[i] is Element <==> d[i]
                is Element) by {
                assert(e[i] is Element <==> d[i] is Element);
            }
        }
    }
}

} // verus!
