//! SVG markup of a subtree.

use crate::dom::attributes::{in_order, Attributes, Pair};
use crate::dom::node::{children_of, ends_within, finite_from, followed, Dom, DomView, Node, NodePtr,
    NodeView, Reach};
use vstd::prelude::*;

verus! {

/// A character as it is written in markup.
pub open spec fn escaped_char(c: char) -> Seq<char> {
    if c == '&' {
        "&amp;"@
    } else if c == '<' {
        "&lt;"@
    } else if c == '>' {
        "&gt;"@
    } else if c == '"' {
        "&quot;"@
    } else {
        seq![c]
    }
}

/// A text as it is written in markup.
pub open spec fn escaped(s: Seq<char>) -> Seq<char>
    decreases s.len(),
{
    if s.len() == 0 {
        Seq::empty()
    } else {
        escaped(s.drop_last()) + escaped_char(s.last())
    }
}

/// Attributes as they are written in a start tag, each after a space.
pub open spec fn attribute_markup(pairs: Seq<Pair>) -> Seq<char>
    decreases pairs.len(),
{
    if pairs.len() == 0 {
        Seq::empty()
    } else {
        attribute_markup(pairs.drop_last()) + " "@ + pairs.last().0 + "=\""@ + escaped(
            pairs.last().1,
        ) + "\""@
    }
}

/// The markup of `n`. Elements without children close themselves, and comments
/// leave no trace.
pub open spec fn markup(d: DomView, n: NodePtr, fuel: nat) -> Seq<char>
    decreases fuel, 1nat, 0nat,
{
    match d[n as int] {
        NodeView::Element(el) => "<"@ + el.tag_name + attribute_markup(in_order(el.attributes)) + (
        if el.children.len() == 0 {
            "/>"@
        } else {
            ">"@ + markup_all(d, el.children, fuel) + "</"@ + el.tag_name + ">"@
        }),
        NodeView::Text { content, parent } => escaped(content),
        NodeView::Comment { content, parent } => Seq::empty(),
        NodeView::Document { children, mode } => markup_all(d, children, fuel),
    }
}

/// The markup of a list of nodes.
pub open spec fn markup_all(d: DomView, kids: Seq<NodePtr>, fuel: nat) -> Seq<char>
    decreases fuel, 0nat, kids.len(),
{
    if kids.len() == 0 || fuel == 0 {
        Seq::empty()
    } else {
        markup_all(d, kids.drop_last(), fuel) + markup(d, kids.last(), (fuel - 1) as nat)
    }
}

/// Appends `s` as it is written in markup.
pub fn push_escaped(out: &mut String, s: &str)
    ensures
        final(out)@ == old(out)@ + escaped(s@),
{
    let ghost start = out@;
    proof {
        assert(s@.take(0).len() == 0);
        assert(start + escaped(s@.take(0)) =~= start);
    }
    for c in it: s.chars()
        invariant
            it.seq() == s@,
            out@ == start + escaped(s@.take(it.index())),
    {
        let ghost i = it.index();
        let ghost before = out@;
        if c == '&' {
            out.push_str("&amp;");
        } else if c == '<' {
            out.push_str("&lt;");
        } else if c == '>' {
            out.push_str("&gt;");
        } else if c == '"' {
            out.push_str("&quot;");
        } else {
            out.push(c);
        }
        proof {
            assert(s@.take(i + 1).drop_last() == s@.take(i));
            assert(s@.take(i + 1).last() == c);
            assert(out@ =~= before + escaped_char(c));
            assert(start + (escaped(s@.take(i)) + escaped_char(c)) =~= (start + escaped(s@.take(i)))
                + escaped_char(c));
        }
    }
    assert(s@.take(s@.len() as int) == s@);
}

/// `s` as it is written in markup.
pub fn html_escape(s: &str) -> (res: String)
    ensures
        res@ == escaped(s@),
{
    let mut out = String::new();
    push_escaped(&mut out, s);
    assert(out@ =~= escaped(s@));
    out
}

fn push_attributes(out: &mut String, attributes: &Attributes)
    ensures
        final(out)@ == old(out)@ + attribute_markup(in_order(attributes@)),
{
    let ghost start = out@;
    let entries = attributes.entries();
    let ghost pairs = in_order(attributes@);
    let mut i: usize = 0;
    proof {
        assert(start + attribute_markup(pairs.take(0)) =~= start);
    }
    while i < entries.len()
        invariant
            i <= entries.len(),
            entries@.map_values(|e: (String, String)| (e.0@, e.1@)) == pairs,
            out@ == start + attribute_markup(pairs.take(i as int)),
        decreases entries.len() - i,
    {
        let ghost before = out@;
        proof {
            let mapped = entries@.map_values(|e: (String, String)| (e.0@, e.1@));
            assert(mapped[i as int] == pairs[i as int]);
            assert(pairs.take(i + 1).drop_last() == pairs.take(i as int));
            assert(pairs.take(i + 1).last() == pairs[i as int]);
        }
        out.push_str(" ");
        out.push_str(entries[i].0.as_str());
        out.push_str("=\"");
        push_escaped(out, entries[i].1.as_str());
        out.push_str("\"");
        assert(out@ =~= start + attribute_markup(pairs.take(i + 1)));
        i = i + 1;
    }
    assert(pairs.take(i as int) == pairs);
}

fn push_all(dom: &Dom, node: NodePtr, kids: &Vec<NodePtr>, out: &mut String, Ghost(fuel): Ghost<nat>)
    requires
        ends_within(dom@, node, Reach::Children, fuel),
        kids@ == children_of(dom@[node as int]),
    ensures
        final(out)@ == old(out)@ + markup_all(dom@, kids@, fuel),
    decreases fuel, 0nat,
{
    let ghost start = out@;
    let mut i: usize = 0;
    proof {
        assert(start + markup_all(dom@, kids@.take(0), fuel) =~= start);
    }
    while i < kids.len()
        invariant
            i <= kids.len(),
            ends_within(dom@, node, Reach::Children, fuel),
            kids@ == children_of(dom@[node as int]),
            out@ == start + markup_all(dom@, kids@.take(i as int), fuel),
        decreases kids.len() - i,
    {
        proof {
            assert(kids@.take(i + 1).drop_last() == kids@.take(i as int));
            assert(kids@.take(i + 1).last() == kids@[i as int]);
            assert(followed(dom@[node as int], Reach::Children)[i as int] == kids@[i as int]);
        }
        serialize_node(dom, kids[i], out, Ghost((fuel - 1) as nat));
        assert(out@ =~= start + markup_all(dom@, kids@.take(i + 1), fuel));
        i = i + 1;
    }
    assert(kids@.take(i as int) == kids@);
}

fn serialize_node(dom: &Dom, node: NodePtr, out: &mut String, Ghost(fuel): Ghost<nat>)
    requires
        ends_within(dom@, node, Reach::Children, fuel),
    ensures
        final(out)@ == old(out)@ + markup(dom@, node, fuel),
    decreases fuel, 1nat,
{
    let ghost start = out@;
    match dom.node(node) {
        Node::Element(el) => {
            out.push_str("<");
            out.push_str(el.tag_name.as_str());
            push_attributes(out, &el.attributes);
            if el.children.len() == 0 {
                out.push_str("/>");
            } else {
                out.push_str(">");
                push_all(dom, node, &el.children, out, Ghost(fuel));
                out.push_str("</");
                out.push_str(el.tag_name.as_str());
                out.push_str(">");
            }
        },
        Node::Text(text) => {
            push_escaped(out, text.content.as_str());
        },
        Node::Comment(_) => {},
        Node::Document { children, .. } => {
            push_all(dom, node, children, out, Ghost(fuel));
        },
    }
    assert(out@ =~= start + markup(dom@, node, fuel));
}

/// The markup of an SVG subtree.
pub fn serialize_svg_node(dom: &Dom, node: NodePtr) -> (res: String)
    requires
        finite_from(dom@, node, Reach::Children),
    ensures
        res@ == markup(dom@, node, dom@.len()),
{
    let mut out = String::new();
    serialize_node(dom, node, &mut out, Ghost(dom@.len()));
    assert(out@ =~= markup(dom@, node, dom@.len()));
    out
}

proof fn lemma_escaped_chars(s: Seq<char>, i: int)
    requires
        0 <= i < escaped(s).len(),
    ensures
        escaped(s)[i] != '<',
        escaped(s)[i] != '>',
        escaped(s)[i] != '"',
    decreases s.len(),
{
    reveal_strlit("&amp;");
    reveal_strlit("&lt;");
    reveal_strlit("&gt;");
    reveal_strlit("&quot;");
    let front = escaped(s.drop_last());
    if i < front.len() {
        lemma_escaped_chars(s.drop_last(), i);
    } else {
        let last = escaped_char(s.last());
        assert(escaped(s)[i] == last[i - front.len()]);
    }
}

/// Escaped text ends neither a tag nor a quoted value.
pub proof fn law_escaped_text_is_inert(s: Seq<char>)
    ensures
        !escaped(s).contains('<'),
        !escaped(s).contains('>'),
        !escaped(s).contains('"'),
{
    assert forall|i: int| 0 <= i < escaped(s).len() implies escaped(s)[i] != '<' && escaped(s)[i]
        != '>' && escaped(s)[i] != '"' by {
        lemma_escaped_chars(s, i);
    }
}

} // verus!
