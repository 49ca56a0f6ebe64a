//! What documents are written as.

use crate::dom::attributes::{in_order, Pair};
use crate::dom::display::{indent, outline, outline_all, shown_attributes};
use crate::dom::node::{DomView, NodePtr, NodeView};
use crate::dom::svg::{attribute_markup, escaped, markup, markup_all};
use vstd::prelude::*;

verus! {

/// Escaping goes character by character, and changes those that mean something in
/// markup and no others.
pub proof fn law_escaping_is_character_by_character(a: Seq<char>, b: Seq<char>, c: char)
    ensures
        escaped(a + b) == escaped(a) + escaped(b),
        escaped(seq![c]) == (match c {
            '&' => "&amp;"@,
            '<' => "&lt;"@,
            '>' => "&gt;"@,
            '"' => "&quot;"@,
            _ => seq![c],
        }),
        escaped(Seq::empty()) == Seq::<char>::empty(),
    decreases b.len(),
{
    let one = seq![c];
    reveal_with_fuel(escaped, 2);
    assert(one.drop_last() =~= Seq::<char>::empty());
    assert(one.last() == c);
    assert(escaped(one) =~= (match c {
        '&' => "&amp;"@,
        '<' => "&lt;"@,
        '>' => "&gt;"@,
        '"' => "&quot;"@,
        _ => seq![c],
    }));
    if b.len() == 0 {
        assert(a + b =~= a);
        assert(escaped(a) + escaped(b) =~= escaped(a));
    } else {
        assert((a + b).drop_last() =~= a + b.drop_last());
        law_escaping_is_character_by_character(a, b.drop_last(), c);
        assert(escaped(a + b) =~= escaped(a) + escaped(b));
    }
}

proof fn lemma_flatten_push(s: Seq<Seq<char>>, x: Seq<char>)
    ensures
        s.push(x).flatten() == s.flatten() + x,
{
    s.push(x).lemma_flatten_and_flatten_alt_are_equivalent();
    s.lemma_flatten_and_flatten_alt_are_equivalent();
    assert(s.push(x).drop_last() =~= s);
}

/// The markup of the nodes of a list, one after the other.
pub open spec fn markup_inside(d: DomView, kids: Seq<NodePtr>, fuel: nat) -> Seq<char> {
    kids.map_values(|k: NodePtr| markup(d, k, fuel)).flatten()
}

proof fn lemma_markup_inside(d: DomView, kids: Seq<NodePtr>, fuel: nat)
    requires
        fuel > 0,
    ensures
        markup_all(d, kids, fuel) == markup_inside(d, kids, (fuel - 1) as nat),
    decreases kids.len(),
{
    let f = |k: NodePtr| markup(d, k, (fuel - 1) as nat);
    if kids.len() == 0 {
        assert(kids.map_values(f).flatten() =~= Seq::<char>::empty());
    } else {
        lemma_markup_inside(d, kids.drop_last(), fuel);
        assert(kids.map_values(f) =~= kids.drop_last().map_values(f).push(f(kids.last())));
        lemma_flatten_push(kids.drop_last().map_values(f), f(kids.last()));
    }
}

/// Attributes as they are written, one after the other.
pub open spec fn attributes_inside(pairs: Seq<Pair>) -> Seq<char> {
    pairs.map_values(|p: Pair| " "@ + p.0 + "=\""@ + escaped(p.1) + "\""@).flatten()
}

proof fn lemma_attributes_inside(pairs: Seq<Pair>)
    ensures
        attribute_markup(pairs) == attributes_inside(pairs),
    decreases pairs.len(),
{
    let f = |p: Pair| " "@ + p.0 + "=\""@ + escaped(p.1) + "\""@;
    if pairs.len() == 0 {
        assert(pairs.map_values(f).flatten() =~= Seq::<char>::empty());
    } else {
        let front = pairs.drop_last();
        lemma_attributes_inside(front);
        assert(pairs.map_values(f) =~= front.map_values(f).push(f(pairs.last())));
        lemma_flatten_push(front.map_values(f), f(pairs.last()));
        assert(attribute_markup(pairs) =~= attribute_markup(front) + f(pairs.last()));
    }
}

/// The markup of an element is its tag with all its attributes, and between it and
/// the end tag the markup of all its children in their order. Text is escaped,
/// comments are left out, and a document is what is inside it.
pub proof fn law_markup_nests_its_children(d: DomView, n: NodePtr, fuel: nat)
    requires
        fuel > 0,
    ensures
        markup(d, n, fuel) == (match d[n as int] {
            NodeView::Element(el) => {
                let tag = "<"@ + el.tag_name + attributes_inside(in_order(el.attributes));
                if el.children.len() == 0 {
                    tag + "/>"@
                } else {
                    tag + ">"@ + markup_inside(d, el.children, (fuel - 1) as nat) + "</"@
                        + el.tag_name + ">"@
                }
            },
            NodeView::Text { content, parent } => escaped(content),
            NodeView::Comment { content, parent } => Seq::empty(),
            NodeView::Document { children, mode } => markup_inside(
                d,
                children,
                (fuel - 1) as nat,
            ),
        }),
{
    match d[n as int] {
        NodeView::Element(el) => {
            lemma_attributes_inside(in_order(el.attributes));
            lemma_markup_inside(d, el.children, fuel);
            let tag = "<"@ + el.tag_name + attributes_inside(in_order(el.attributes));
            if el.children.len() == 0 {
                assert(markup(d, n, fuel) =~= tag + "/>"@);
            } else {
                assert(markup(d, n, fuel) =~= tag + ">"@ + markup_inside(
                    d,
                    el.children,
                    (fuel - 1) as nat,
                ) + "</"@ + el.tag_name + ">"@);
            }
        },
        NodeView::Document { children, mode } => {
            lemma_markup_inside(d, children, fuel);
        },
        _ => {},
    }
}

/// A line is indented by two spaces for every level.
pub proof fn law_indents_are_two_spaces_a_level(depth: nat)
    ensures
        indent(depth) == Seq::new(2 * depth, |i: int| ' '),
    decreases depth,
{
    reveal_strlit("  ");
    if depth > 0 {
        law_indents_are_two_spaces_a_level((depth - 1) as nat);
    }
    assert(indent(depth) =~= Seq::new(2 * depth, |i: int| ' '));
}

/// The outlines of the nodes of a list, one after the other.
pub open spec fn outlines_inside(d: DomView, kids: Seq<NodePtr>, depth: nat, fuel: nat) -> Seq<char> {
    kids.map_values(|k: NodePtr| outline(d, k, depth, fuel)).flatten()
}

proof fn lemma_outlines_inside(d: DomView, kids: Seq<NodePtr>, depth: nat, fuel: nat)
    requires
        fuel > 0,
    ensures
        outline_all(d, kids, depth, fuel) == outlines_inside(d, kids, depth, (fuel - 1) as nat),
    decreases kids.len(),
{
    let f = |k: NodePtr| outline(d, k, depth, (fuel - 1) as nat);
    if kids.len() == 0 {
        assert(kids.map_values(f).flatten() =~= Seq::<char>::empty());
    } else {
        lemma_outlines_inside(d, kids.drop_last(), depth, fuel);
        assert(kids.map_values(f) =~= kids.drop_last().map_values(f).push(f(kids.last())));
        lemma_flatten_push(kids.drop_last().map_values(f), f(kids.last()));
    }
}

/// Attributes as an outline shows them, one after the other.
pub open spec fn attributes_shown(pairs: Seq<Pair>) -> Seq<char> {
    pairs.map_values(|p: Pair| " "@ + p.0 + "=\""@ + p.1 + "\""@).flatten()
}

proof fn lemma_attributes_shown(pairs: Seq<Pair>)
    ensures
        shown_attributes(pairs) == attributes_shown(pairs),
    decreases pairs.len(),
{
    let f = |p: Pair| " "@ + p.0 + "=\""@ + p.1 + "\""@;
    if pairs.len() == 0 {
        assert(pairs.map_values(f).flatten() =~= Seq::<char>::empty());
    } else {
        let front = pairs.drop_last();
        lemma_attributes_shown(front);
        assert(pairs.map_values(f) =~= front.map_values(f).push(f(pairs.last())));
        lemma_flatten_push(front.map_values(f), f(pairs.last()));
        assert(shown_attributes(pairs) =~= shown_attributes(front) + f(pairs.last()));
    }
}

/// The outline of a node is a line for it, and below it the outlines of all its
/// children in their order, one level deeper.
pub proof fn law_outlines_nest_by_level(d: DomView, n: NodePtr, depth: nat, fuel: nat)
    requires
        fuel > 0,
    ensures
        ({
            let margin = Seq::new(2 * depth, |i: int| ' ');
            let less = (fuel - 1) as nat;
            outline(d, n, depth, fuel) == (match d[n as int] {
                NodeView::Document { children, mode } => margin + "#document\n"@ + outlines_inside(
                    d,
                    children,
                    depth + 1,
                    less,
                ),
                NodeView::Element(el) => margin + "<"@ + el.tag_name + attributes_shown(
                    in_order(el.attributes),
                ) + ">\n"@ + outlines_inside(d, el.children, depth + 1, less),
                NodeView::Text { content, parent } => margin + "\""@ + content + "\"\n"@,
                NodeView::Comment { content, parent } => margin + "<!--"@ + content + "-->\n"@,
            })
        }),
{
    law_indents_are_two_spaces_a_level(depth);
    match d[n as int] {
        NodeView::Document { children, mode } => {
            lemma_outlines_inside(d, children, depth + 1, fuel);
        },
        NodeView::Element(el) => {
            lemma_attributes_shown(in_order(el.attributes));
            lemma_outlines_inside(d, el.children, depth + 1, fuel);
        },
        _ => {},
    }
}

} // verus!
