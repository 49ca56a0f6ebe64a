//! A readable outline of a subtree.

use crate::dom::attributes::{in_order, Attributes, Pair};
use crate::dom::node::{children_of, ends_within, finite_from, followed, Dom, DomView, Node, NodePtr,
    NodeView, Reach};
use vstd::prelude::*;

verus! {

/// Two spaces for every level.
pub open spec fn indent(depth: nat) -> Seq<char>
    decreases depth,
{
    if depth == 0 {
        Seq::empty()
    } else {
        indent((depth - 1) as nat) + "  "@
    }
}

/// Attributes as they are shown, each after a space.
pub open spec fn shown_attributes(pairs: Seq<Pair>) -> Seq<char>
    decreases pairs.len(),
{
    if pairs.len() == 0 {
        Seq::empty()
    } else {
        shown_attributes(pairs.drop_last()) + " "@ + pairs.last().0 + "=\""@ + pairs.last().1
            + "\""@
    }
}

/// The outline of `n`, one line for each node.
pub open spec fn outline(d: DomView, n: NodePtr, depth: nat, fuel: nat) -> Seq<char>
    decreases fuel, 1nat, 0nat,
{
    match d[n as int] {
        NodeView::Document { children, mode } => indent(depth) + "#document\n"@ + outline_all(
            d,
            children,
            depth + 1,
            fuel,
        ),
        NodeView::Element(el) => indent(depth) + "<"@ + el.tag_name + shown_attributes(
            in_order(el.attributes),
        ) + ">\n"@ + outline_all(d, el.children, depth + 1, fuel),
        NodeView::Text { content, parent } => indent(depth) + "\""@ + content + "\"\n"@,
        NodeView::Comment { content, parent } => indent(depth) + "<!--"@ + content + "-->\n"@,
    }
}

/// The outline of a list of nodes.
pub open spec fn outline_all(d: DomView, kids: Seq<NodePtr>, depth: nat, fuel: nat) -> Seq<char>
    decreases fuel, 0nat, kids.len(),
{
    if kids.len() == 0 || fuel == 0 {
        Seq::empty()
    } else {
        outline_all(d, kids.drop_last(), depth, fuel) + outline(
            d,
            kids.last(),
            depth,
            (fuel - 1) as nat,
        )
    }
}

fn push_indent(out: &mut String, depth: usize)
    ensures
        final(out)@ == old(out)@ + indent(depth as nat),
{
    let ghost start = out@;
    let mut i: usize = 0;
    assert(start + indent(0) =~= start);
    while i < depth
        invariant
            i <= depth,
            out@ == start + indent(i as nat),
        decreases depth - i,
    {
        out.push_str("  ");
        i = i + 1;
        assert(out@ =~= start + indent(i as nat));
    }
}

fn push_attributes(out: &mut String, attributes: &Attributes)
    ensures
        final(out)@ == old(out)@ + shown_attributes(in_order(attributes@)),
{
    let ghost start = out@;
    let entries = attributes.entries();
    let ghost pairs = in_order(attributes@);
    let mut i: usize = 0;
    proof {
        assert(start + shown_attributes(pairs.take(0)) =~= start);
    }
    while i < entries.len()
        invariant
            i <= entries.len(),
            entries@.map_values(|e: (String, String)| (e.0@, e.1@)) == pairs,
            out@ == start + shown_attributes(pairs.take(i as int)),
        decreases entries.len() - i,
    {
        proof {
            let mapped = entries@.map_values(|e: (String, String)| (e.0@, e.1@));
            assert(mapped[i as int] == pairs[i as int]);
            assert(pairs.take(i + 1).drop_last() == pairs.take(i as int));
            assert(pairs.take(i + 1).last() == pairs[i as int]);
        }
        out.push_str(" ");
        out.push_str(entries[i].0.as_str());
        out.push_str("=\"");
        out.push_str(entries[i].1.as_str());
        out.push_str("\"");
        assert(out@ =~= start + shown_attributes(pairs.take(i + 1)));
        i = i + 1;
    }
    assert(pairs.take(i as int) == pairs);
}

fn push_all(
    dom: &Dom,
    node: NodePtr,
    kids: &Vec<NodePtr>,
    depth: usize,
    out: &mut String,
    Ghost(fuel): Ghost<nat>,
)
    requires
        ends_within(dom@, node, Reach::Children, fuel),
        kids@ == children_of(dom@[node as int]),
        depth + fuel <= usize::MAX,
    ensures
        final(out)@ == old(out)@ + outline_all(dom@, kids@, depth as nat, fuel),
    decreases fuel, 0nat,
{
    let ghost start = out@;
    let mut i: usize = 0;
    proof {
        assert(start + outline_all(dom@, kids@.take(0), depth as nat, fuel) =~= start);
    }
    while i < kids.len()
        invariant
            i <= kids.len(),
            ends_within(dom@, node, Reach::Children, fuel),
            kids@ == children_of(dom@[node as int]),
            depth + fuel <= usize::MAX,
            out@ == start + outline_all(dom@, kids@.take(i as int), depth as nat, fuel),
        decreases kids.len() - i,
    {
        proof {
            assert(kids@.take(i + 1).drop_last() == kids@.take(i as int));
            assert(kids@.take(i + 1).last() == kids@[i as int]);
            assert(followed(dom@[node as int], Reach::Children)[i as int] == kids@[i as int]);
        }
        fmt_with_indent(dom, kids[i], depth, out, Ghost((fuel - 1) as nat));
        assert(out@ =~= start + outline_all(dom@, kids@.take(i + 1), depth as nat, fuel));
        i = i + 1;
    }
    assert(kids@.take(i as int) == kids@);
}

fn fmt_with_indent(
    dom: &Dom,
    node: NodePtr,
    depth: usize,
    out: &mut String,
    Ghost(fuel): Ghost<nat>,
)
    requires
        ends_within(dom@, node, Reach::Children, fuel),
        depth + 1 + fuel <= usize::MAX,
    ensures
        final(out)@ == old(out)@ + outline(dom@, node, depth as nat, fuel),
    decreases fuel, 1nat,
{
    let ghost start = out@;
    push_indent(out, depth);
    match dom.node(node) {
        Node::Document { children, .. } => {
            out.push_str("#document\n");
            push_all(dom, node, children, depth + 1, out, Ghost(fuel));
        },
        Node::Element(el) => {
            out.push_str("<");
            out.push_str(el.tag_name.as_str());
            push_attributes(out, &el.attributes);
            out.push_str(">\n");
            push_all(dom, node, &el.children, depth + 1, out, Ghost(fuel));
        },
        Node::Text(text) => {
            out.push_str("\"");
            out.push_str(text.content.as_str());
            out.push_str("\"\n");
        },
        Node::Comment(text) => {
            out.push_str("<!--");
            out.push_str(text.content.as_str());
            out.push_str("-->\n");
        },
    }
    assert(out@ =~= start + outline(dom@, node, depth as nat, fuel));
}

impl Dom {
    /// The outline of `node`, one line for each node, two spaces for every
    /// level.
    pub fn to_outline(&self, node: NodePtr) -> (res: String)
        requires
            finite_from(self@, node, Reach::Children),
            self@.len() < usize::MAX,
        ensures
            res@ == outline(self@, node, 0, self@.len()),
    {
        let mut out = String::new();
        fmt_with_indent(self, node, 0, &mut out, Ghost(self@.len()));
        assert(out@ =~= outline(self@, node, 0, self@.len()));
        out
    }
}

} // verus!
