//! A one-line summary of the renderer's tree.

use crate::blitz_document::render::{element_of, node_at, RenderData, RenderDataView, RenderTree,
    RenderView};
use crate::text::{decimal, push_decimal};
use vstd::prelude::*;

verus! {

/// How many nodes there are.
#[derive(Debug, Clone, Copy)]
pub struct NodeCounts {
    pub total: usize,
    pub elements: usize,
    pub text: usize,
}

/// How many nodes there are, without bound.
#[verifier::ext_equal]
pub struct Tally {
    pub total: nat,
    pub elements: nat,
    pub text: nat,
}

/// The view of counts.
pub open spec fn tally(c: NodeCounts) -> Tally {
    Tally { total: c.total as nat, elements: c.elements as nat, text: c.text as nat }
}

/// The sum of two tallies.
pub open spec fn plus(a: Tally, b: Tally) -> Tally {
    Tally {
        total: a.total + b.total,
        elements: a.elements + b.elements,
        text: a.text + b.text,
    }
}

/// The tally of one node; blocks that layout inserted count as elements.
pub open spec fn one(data: RenderDataView) -> Tally {
    Tally {
        total: 1,
        elements: if element_of(data) is Some {
            1
        } else {
            0
        },
        text: if data is Text {
            1
        } else {
            0
        },
    }
}

/// The tally of the nodes at and below `id`. Text has nothing below it.
pub open spec fn counted(t: RenderView, id: usize, fuel: nat) -> Tally
    decreases fuel, 1nat, 0nat,
{
    match node_at(t, id) {
        Some(node) => if node.data is Text {
            one(node.data)
        } else {
            plus(one(node.data), counted_all(t, node.children, fuel))
        },
        None => Tally { total: 0, elements: 0, text: 0 },
    }
}

/// The tally of the nodes at and below those of a list.
pub open spec fn counted_all(t: RenderView, ids: Seq<usize>, fuel: nat) -> Tally
    decreases fuel, 0nat, ids.len(),
{
    if ids.len() == 0 || fuel == 0 {
        Tally { total: 0, elements: 0, text: 0 }
    } else {
        plus(
            counted_all(t, ids.drop_last(), fuel),
            counted(t, ids.last(), (fuel - 1) as nat),
        )
    }
}

/// Whether the walk down from `id` ends and meets no missing node.
pub open spec fn all_present(t: RenderView, id: usize, fuel: nat) -> bool
    decreases fuel,
{
    fuel > 0 && (node_at(t, id) matches Some(node) && (node.data is Text || forall|i: int|
        0 <= i < node.children.len() ==> all_present(
            t,
            #[trigger] node.children[i],
            (fuel - 1) as nat,
        )))
}

/// A list counts at least what its beginning does.
pub proof fn lemma_counted_prefix(t: RenderView, ids: Seq<usize>, fuel: nat, k: int)
    requires
        0 <= k <= ids.len(),
    ensures
        counted_all(t, ids.take(k), fuel).total <= counted_all(t, ids, fuel).total,
    decreases ids.len(),
{
    if k == ids.len() {
        assert(ids.take(k) == ids);
    } else {
        lemma_counted_prefix(t, ids.drop_last(), fuel, k);
        assert(ids.drop_last().take(k) == ids.take(k));
    }
}

proof fn lemma_tally_bound(t: RenderView, id: usize, fuel: nat)
    ensures
        counted(t, id, fuel).elements <= counted(t, id, fuel).total,
        counted(t, id, fuel).text <= counted(t, id, fuel).total,
    decreases fuel, 1nat, 0nat,
{
    if let Some(node) = node_at(t, id) {
        lemma_tally_bound_all(t, node.children, fuel);
    }
}

proof fn lemma_tally_bound_all(t: RenderView, ids: Seq<usize>, fuel: nat)
    ensures
        counted_all(t, ids, fuel).elements <= counted_all(t, ids, fuel).total,
        counted_all(t, ids, fuel).text <= counted_all(t, ids, fuel).total,
    decreases fuel, 0nat, ids.len(),
{
    if ids.len() > 0 && fuel > 0 {
        lemma_tally_bound_all(t, ids.drop_last(), fuel);
        lemma_tally_bound(t, ids.last(), (fuel - 1) as nat);
    }
}

fn count_within(tree: &RenderTree, id: usize, counts: &mut NodeCounts, Ghost(fuel): Ghost<nat>)
    requires
        all_present(tree@, id, fuel),
        old(counts).elements <= old(counts).total,
        old(counts).text <= old(counts).total,
        old(counts).total + counted(tree@, id, fuel).total <= usize::MAX,
    ensures
        tally(*final(counts)) == plus(tally(*old(counts)), counted(tree@, id, fuel)),
    decreases fuel,
{
    let ghost begin = tally(*counts);
    let node = match tree.get_node(id) {
        Some(node) => node,
        None => {
            return ;
        },
    };
    counts.total = counts.total + 1;
    match &node.data {
        RenderData::Element(_) => {
            counts.elements = counts.elements + 1;
        },
        RenderData::AnonymousBlock(_) => {
            counts.elements = counts.elements + 1;
        },
        RenderData::Text(_) => {
            counts.text = counts.text + 1;
            assert(tally(*counts) =~= plus(begin, counted(tree@, id, fuel)));
            return ;
        },
        RenderData::Document => {},
        RenderData::Comment => {},
    }
    let ghost base = tally(*counts);
    assert(base =~= plus(begin, one(node@.data)));
    let mut i: usize = 0;
    while i < node.children.len()
        invariant
            i <= node.children.len(),
            node_at(tree@, id) == Some(node@),
            !(node@.data is Text),
            all_present(tree@, id, fuel),
            base.elements <= base.total,
            base.text <= base.total,
            base.total + counted_all(tree@, node.children@, fuel).total <= usize::MAX,
            tally(*counts) == plus(
                base,
                counted_all(tree@, node.children@.take(i as int), fuel),
            ),
        decreases node.children.len() - i,
    {
        proof {
            let kids = node.children@;
            assert(kids.take(i + 1).drop_last() == kids.take(i as int));
            assert(kids.take(i + 1).last() == kids[i as int]);
            assert(node@.children[i as int] == kids[i as int]);
            lemma_counted_prefix(tree@, kids, fuel, i + 1);
            lemma_tally_bound_all(tree@, kids.take(i as int), fuel);
        }
        count_within(tree, node.children[i], counts, Ghost((fuel - 1) as nat));
        assert(tally(*counts) =~= plus(
            base,
            counted_all(tree@, node.children@.take(i + 1), fuel),
        ));
        i = i + 1;
    }
    assert(node.children@.take(i as int) == node.children@);
    assert(tally(*counts) =~= plus(begin, counted(tree@, id, fuel)));
}

/// Counts the nodes at and below `root`.
pub fn collect_node_counts(tree: &RenderTree, root: usize) -> (res: NodeCounts)
    requires
        all_present(tree@, root, tree@.len()),
        counted(tree@, root, tree@.len()).total <= usize::MAX,
    ensures
        tally(res) == counted(tree@, root, tree@.len()),
{
    let mut counts = NodeCounts { total: 0, elements: 0, text: 0 };
    count_within(tree, root, &mut counts, Ghost(tree@.len()));
    counts
}

/// How a child of the root is listed, if it is.
pub open spec fn label(t: RenderView, id: usize) -> Option<Seq<char>> {
    match node_at(t, id) {
        Some(node) => match element_of(node.data) {
            Some(el) => Some(el.name.local),
            None => if node.data is Text {
                Some("#text"@)
            } else {
                None
            },
        },
        None => None,
    }
}

/// The labels of a list of nodes, separated by commas, with a mark for whether
/// there is any.
pub open spec fn labels(t: RenderView, ids: Seq<usize>) -> (bool, Seq<char>)
    decreases ids.len(),
{
    if ids.len() == 0 {
        (false, Seq::empty())
    } else {
        let (some, before) = labels(t, ids.drop_last());
        match label(t, ids.last()) {
            Some(l) => if some {
                (true, before + ","@ + l)
            } else {
                (true, l)
            },
            None => (some, before),
        }
    }
}

/// At most the first eight of a list.
pub open spec fn first_eight(ids: Seq<usize>) -> Seq<usize> {
    if ids.len() > 8 {
        ids.take(8)
    } else {
        ids
    }
}

/// The summary of the tree below `root`.
pub open spec fn summary(t: RenderView, root: usize, text_len: usize) -> Seq<char> {
    let node = node_at(t, root)->0;
    let c = counted(t, root, t.len());
    "root="@ + (match element_of(node.data) {
        Some(el) => el.name.local,
        None => "#document"@,
    }) + " nodes="@ + decimal(c.total) + " elements="@ + decimal(c.elements) + " text="@ + decimal(
        c.text,
    ) + " top=["@ + labels(t, first_eight(node.children)).1 + "] text_len="@ + decimal(
        text_len as nat,
    )
}

/// Root, counts and first children of the tree, with the length of its text.
pub fn debug_summary(tree: &RenderTree, root: usize, text_len: usize) -> (res: String)
    requires
        all_present(tree@, root, tree@.len()),
        counted(tree@, root, tree@.len()).total <= usize::MAX,
    ensures
        res@ == summary(tree@, root, text_len),
{
    let counts = collect_node_counts(tree, root);
    let node = match tree.get_node(root) {
        Some(node) => node,
        None => {
            return String::new();
        },
    };
    let mut top = String::new();
    let mut some = false;
    let mut i: usize = 0;
    let ghost shown = first_eight(node@.children);
    assert(top@ =~= Seq::<char>::empty());
    while i < node.children.len() && i < 8
        invariant
            i <= node.children.len(),
            i <= 8,
            shown == first_eight(node.children@),
            (some, top@) == labels(tree@, shown.take(i as int)),
        decreases node.children.len() - i,
    {
        proof {
            assert(shown.take(i + 1).drop_last() == shown.take(i as int));
            assert(shown.take(i + 1).last() == node.children@[i as int]);
        }
        if let Some(child) = tree.get_node(node.children[i]) {
            let found: Option<String> = match child.data.downcast_element() {
                Some(el) => Some(el.name.local.clone()),
                None => match &child.data {
                    RenderData::Text(_) => Some("#text".to_owned()),
                    _ => None,
                },
            };
            if let Some(l) = found {
                let ghost before = top@;
                if some {
                    top.push_str(",");
                }
                top.push_str(l.as_str());
                proof {
                    if !some {
                        assert(before =~= Seq::<char>::empty()) by {
                            lemma_no_labels(tree@, shown.take(i as int));
                        }
                        assert(top@ =~= l@);
                    }
                }
                some = true;
            }
        }
        i = i + 1;
    }
    assert(shown.take(i as int) =~= shown);
    let mut out = "root=".to_owned();
    match node.data.downcast_element() {
        Some(el) => {
            out.push_str(el.name.local.as_str());
        },
        None => {
            out.push_str("#document");
        },
    }
    out.push_str(" nodes=");
    push_decimal(&mut out, counts.total);
    out.push_str(" elements=");
    push_decimal(&mut out, counts.elements);
    out.push_str(" text=");
    push_decimal(&mut out, counts.text);
    out.push_str(" top=[");
    out.push_str(top.as_str());
    out.push_str("] text_len=");
    push_decimal(&mut out, text_len);
    out
}

proof fn lemma_no_labels(t: RenderView, ids: Seq<usize>)
    ensures
        !labels(t, ids).0 ==> labels(t, ids).1 == Seq::<char>::empty(),
    decreases ids.len(),
{
    if ids.len() > 0 {
        lemma_no_labels(t, ids.drop_last());
    }
}

} // verus!
