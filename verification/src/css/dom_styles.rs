//! The style sources of a document.

use crate::dom::attributes::Attributes;
use crate::dom::node::{children_of, ends_within, finite_from, followed, Dom, DomView, ElementNode,
    Node, NodePtr, NodeView, Reach};
use crate::dom::routes::{arrival, child_lists, gathered, gathered_all, lemma_gathered_lists_all,
    lemma_listed_from, lemma_listed_has, lemma_routes_end, lists_all};
use crate::fetch::http::{resolve_relative_url, url_joined};
use crate::text::text_eq;
use vstd::prelude::*;

verus! {

/// One source of style rules.
#[derive(Debug, PartialEq, Eq)]
pub enum StyleSource {
    /// The text of a `style` element.
    Text(String),
    /// The `href` of a linked stylesheet.
    Link(String),
}

/// A `StyleSource` by its characters.
#[verifier::ext_equal]
pub enum StyleSourceView {
    Text(Seq<char>),
    Link(Seq<char>),
}

impl View for StyleSource {
    type V = StyleSourceView;

    open spec fn view(&self) -> StyleSourceView {
        match self {
            StyleSource::Text(text) => StyleSourceView::Text(text@),
            StyleSource::Link(href) => StyleSourceView::Link(href@),
        }
    }
}

/// The sources in a list.
pub open spec fn sources_view(s: Seq<StyleSource>) -> Seq<StyleSourceView> {
    s.map_values(|e: StyleSource| e@)
}

/// The texts among `kids`.
pub open spec fn style_texts(d: DomView, kids: Seq<NodePtr>) -> Seq<StyleSourceView>
    decreases kids.len(),
{
    if kids.len() == 0 {
        Seq::empty()
    } else {
        let front = style_texts(d, kids.drop_last());
        match d[kids.last() as int] {
            NodeView::Text { content, parent } => front.push(StyleSourceView::Text(content)),
            _ => front,
        }
    }
}

/// Whether attributes describe a link to a stylesheet.
pub open spec fn links_stylesheet(attributes: Map<Seq<char>, Seq<char>>) -> bool {
    attributes.contains_key("rel"@) && attributes["rel"@] == "stylesheet"@
}

/// The sources that the element itself is. Without a base address links are
/// left out.
pub open spec fn element_sources(d: DomView, n: NodePtr, based: bool) -> Seq<StyleSourceView> {
    match d[n as int] {
        NodeView::Element(el) => if el.tag_name == "style"@ {
            style_texts(d, el.children)
        } else if el.tag_name == "link"@ && links_stylesheet(el.attributes) && based
            && el.attributes.contains_key("href"@) {
            seq![StyleSourceView::Link(el.attributes["href"@])]
        } else {
            Seq::empty()
        },
        _ => Seq::empty(),
    }
}

/// The sources of the subtree at `n`, in document order.
pub open spec fn style_sources(d: DomView, n: NodePtr, based: bool, fuel: nat) -> Seq<
    StyleSourceView,
>
    decreases fuel, 1nat, 0nat,
{
    element_sources(d, n, based) + style_sources_of(d, children_of(d[n as int]), based, fuel)
}

/// The sources of the subtrees at `kids`, in document order.
pub open spec fn style_sources_of(d: DomView, kids: Seq<NodePtr>, based: bool, fuel: nat) -> Seq<
    StyleSourceView,
>
    decreases fuel, 0nat, kids.len(),
{
    if kids.len() == 0 || fuel == 0 {
        Seq::empty()
    } else {
        style_sources_of(d, kids.drop_last(), based, fuel) + style_sources(
            d,
            kids.last(),
            based,
            (fuel - 1) as nat,
        )
    }
}

/// The text that a source contributes, given what fetching it gave.
pub open spec fn source_text(source: StyleSourceView, fetched: Option<Seq<char>>) -> Seq<char> {
    match source {
        StyleSourceView::Text(text) => text.push('\n'),
        StyleSourceView::Link(href) => match fetched {
            Some(text) => text.push('\n'),
            None => Seq::empty(),
        },
    }
}

/// The text that the sources make up together.
pub open spec fn joined(sources: Seq<StyleSourceView>, fetched: Seq<Option<Seq<char>>>) -> Seq<char>
    decreases sources.len(),
{
    if sources.len() == 0 {
        Seq::empty()
    } else {
        joined(sources.drop_last(), fetched) + source_text(
            sources.last(),
            fetched[sources.len() - 1],
        )
    }
}

fn push_source(output: &mut Vec<StyleSource>, source: StyleSource)
    ensures
        sources_view(final(output)@) == sources_view(old(output)@).push(source@),
{
    let ghost before = output@;
    output.push(source);
    assert(sources_view(output@) =~= sources_view(before).push(source@));
}

fn collect_style_texts(dom: &Dom, kids: &Vec<NodePtr>, output: &mut Vec<StyleSource>)
    requires
        forall|i: int| 0 <= i < kids@.len() ==> #[trigger] kids@[i] < dom@.len(),
    ensures
        sources_view(final(output)@) == sources_view(old(output)@) + style_texts(dom@, kids@),
{
    let ghost start = sources_view(output@);
    let mut i: usize = 0;
    assert(start + style_texts(dom@, kids@.take(0)) =~= start);
    while i < kids.len()
        invariant
            i <= kids.len(),
            forall|j: int| 0 <= j < kids@.len() ==> #[trigger] kids@[j] < dom@.len(),
            sources_view(output@) == start + style_texts(dom@, kids@.take(i as int)),
        decreases kids.len() - i,
    {
        proof {
            assert(kids@.take(i + 1).drop_last() == kids@.take(i as int));
            assert(kids@.take(i + 1).last() == kids@[i as int]);
        }
        if let Node::Text(text) = dom.node(kids[i]) {
            push_source(output, StyleSource::Text(text.content.clone()));
        }
        assert(sources_view(output@) =~= start + style_texts(dom@, kids@.take(i + 1)));
        i = i + 1;
    }
    assert(kids@.take(i as int) == kids@);
}

fn is_stylesheet_link(attributes: &Attributes) -> (res: bool)
    ensures
        res == links_stylesheet(attributes@),
{
    match attributes.get("rel") {
        Some(rel) => text_eq(rel.as_str(), "stylesheet"),
        None => false,
    }
}

fn collect_element_styles(
    dom: &Dom,
    node: NodePtr,
    element: &ElementNode,
    based: bool,
    output: &mut Vec<StyleSource>,
)
    requires
        node < dom@.len(),
        dom@[node as int] == NodeView::Element(element@),
        forall|i: int|
            0 <= i < element@.children.len() ==> #[trigger] element@.children[i] < dom@.len(),
    ensures
        sources_view(final(output)@) == sources_view(old(output)@) + element_sources(
            dom@,
            node,
            based,
        ),
{
    let ghost start = sources_view(output@);
    if text_eq(element.tag_name.as_str(), "style") {
        assert(element@.children == element.children@);
        collect_style_texts(dom, &element.children, output);
    } else if text_eq(element.tag_name.as_str(), "link") && is_stylesheet_link(
        &element.attributes,
    ) && based {
        if let Some(href) = element.attributes.get("href") {
            push_source(output, StyleSource::Link(href.clone()));
        }
    }
    assert(sources_view(output@) =~= start + element_sources(dom@, node, based));
}

fn collect_all(
    dom: &Dom,
    node: NodePtr,
    kids: &Vec<NodePtr>,
    based: bool,
    output: &mut Vec<StyleSource>,
    Ghost(fuel): Ghost<nat>,
)
    requires
        ends_within(dom@, node, Reach::Children, fuel),
        kids@ == children_of(dom@[node as int]),
    ensures
        sources_view(final(output)@) == sources_view(old(output)@) + style_sources_of(
            dom@,
            kids@,
            based,
            fuel,
        ),
    decreases fuel, 0nat,
{
    let ghost start = sources_view(output@);
    let mut i: usize = 0;
    assert(start + style_sources_of(dom@, kids@.take(0), based, fuel) =~= start);
    while i < kids.len()
        invariant
            i <= kids.len(),
            ends_within(dom@, node, Reach::Children, fuel),
            kids@ == children_of(dom@[node as int]),
            sources_view(output@) == start + style_sources_of(
                dom@,
                kids@.take(i as int),
                based,
                fuel,
            ),
        decreases kids.len() - i,
    {
        proof {
            assert(kids@.take(i + 1).drop_last() == kids@.take(i as int));
            assert(kids@.take(i + 1).last() == kids@[i as int]);
            assert(followed(dom@[node as int], Reach::Children)[i as int] == kids@[i as int]);
        }
        collect_from(dom, kids[i], based, output, Ghost((fuel - 1) as nat));
        assert(sources_view(output@) =~= start + style_sources_of(
            dom@,
            kids@.take(i + 1),
            based,
            fuel,
        ));
        i = i + 1;
    }
    assert(kids@.take(i as int) == kids@);
}

fn collect_from(
    dom: &Dom,
    node: NodePtr,
    based: bool,
    output: &mut Vec<StyleSource>,
    Ghost(fuel): Ghost<nat>,
)
    requires
        ends_within(dom@, node, Reach::Children, fuel),
    ensures
        sources_view(final(output)@) == sources_view(old(output)@) + style_sources(
            dom@,
            node,
            based,
            fuel,
        ),
    decreases fuel, 1nat,
{
    let ghost start = sources_view(output@);
    match dom.node(node) {
        Node::Document { children, .. } => {
            collect_all(dom, node, children, based, output, Ghost(fuel));
        },
        Node::Element(element) => {
            proof {
                assert forall|i: int| 0 <= i < element@.children.len() implies
                    #[trigger] element@.children[i] < dom@.len() by {
                    let kid = followed(dom@[node as int], Reach::Children)[i];
                    assert(ends_within(dom@, kid, Reach::Children, (fuel - 1) as nat));
                }
            }
            collect_element_styles(dom, node, element, based, output);
            collect_all(dom, node, &element.children, based, output, Ghost(fuel));
        },
        Node::Text(_) | Node::Comment(_) => {},
    }
    assert(sources_view(output@) =~= start + style_sources(dom@, node, based, fuel));
}

/// The style sources of the subtree at `node`, in document order. Links count
/// where the document has a base address.
pub fn collect_styles(dom: &Dom, node: NodePtr, based: bool) -> (res: Vec<StyleSource>)
    requires
        finite_from(dom@, node, Reach::Children),
    ensures
        sources_view(res@) == style_sources(dom@, node, based, dom@.len()),
{
    let mut output: Vec<StyleSource> = Vec::new();
    collect_from(dom, node, based, &mut output, Ghost(dom@.len()));
    assert(sources_view(output@) =~= style_sources(dom@, node, based, dom@.len()));
    output
}

/// Where a source is fetched from: a link, from where it leads on the page at
/// `base`.
pub open spec fn address_of(source: StyleSourceView, base: Option<Seq<char>>) -> Option<Seq<char>> {
    match source {
        StyleSourceView::Link(href) => match base {
            Some(base) => url_joined(base, href),
            None => None,
        },
        StyleSourceView::Text(text) => None,
    }
}

/// Where a source is fetched from, if it is a link that leads somewhere.
pub fn source_address(source: &StyleSource, base: Option<&str>) -> (res: Option<String>)
    ensures
        (match res {
            Some(url) => Some(url@),
            None => None,
        }) == address_of(
            source@,
            match base {
                Some(base) => Some(base@),
                None => None,
            },
        ),
{
    match source {
        StyleSource::Link(href) => match base {
            Some(base) => resolve_relative_url(base, href.as_str()),
            None => None,
        },
        StyleSource::Text(_) => None,
    }
}

/// The stylesheet text of the sources. `fetched` holds for every source what
/// fetching it gave; links that could not be fetched are left out.
pub fn join_styles(sources: &Vec<StyleSource>, fetched: &Vec<Option<String>>) -> (res: String)
    requires
        sources@.len() == fetched@.len(),
    ensures
        res@ == joined(
            sources_view(sources@),
            fetched@.map_values(
                |t: Option<String>|
                    match t {
                        Some(text) => Some(text@),
                        None => None,
                    },
            ),
        ),
{
    let mut output = String::new();
    let ghost all = sources_view(sources@);
    let ghost texts = fetched@.map_values(
        |t: Option<String>|
            match t {
                Some(text) => Some(text@),
                None => None,
            },
    );
    let mut i: usize = 0;
    assert(output@ =~= joined(all.take(0), texts));
    while i < sources.len()
        invariant
            i <= sources.len(),
            sources@.len() == fetched@.len(),
            all == sources_view(sources@),
            texts == fetched@.map_values(
                |t: Option<String>|
                    match t {
                        Some(text) => Some(text@),
                        None => None,
                    },
            ),
            output@ == joined(all.take(i as int), texts),
        decreases sources.len() - i,
    {
        let ghost before = output@;
        proof {
            assert(all.take(i + 1).drop_last() == all.take(i as int));
            assert(all.take(i + 1).last() == sources@[i as int]@);
        }
        match &sources[i] {
            StyleSource::Text(text) => {
                output.push_str(text.as_str());
                output.push('\n');
            },
            StyleSource::Link(_) => {
                if let Some(text) = &fetched[i] {
                    output.push_str(text.as_str());
                    output.push('\n');
                }
            },
        }
        assert(output@ =~= before + source_text(all[i as int], texts[i as int]));
        i = i + 1;
    }
    assert(all.take(i as int) == all);
    output
}

proof fn lemma_sources_gathered(d: DomView, n: NodePtr, based: bool, fuel: nat)
    ensures
        style_sources(d, n, based, fuel) == gathered(
            |m: NodePtr| element_sources(d, m, based),
            child_lists(d),
            n,
            fuel,
        ),
    decreases fuel, 1nat, 0nat,
{
    lemma_sources_gathered_of(d, children_of(d[n as int]), based, fuel);
}

proof fn lemma_sources_gathered_of(d: DomView, kids: Seq<NodePtr>, based: bool, fuel: nat)
    ensures
        style_sources_of(d, kids, based, fuel) == gathered_all(
            |m: NodePtr| element_sources(d, m, based),
            child_lists(d),
            kids,
            fuel,
        ),
    decreases fuel, 0nat, kids.len(),
{
    if kids.len() > 0 && fuel > 0 {
        lemma_sources_gathered_of(d, kids.drop_last(), based, fuel);
        lemma_sources_gathered(d, kids.last(), based, (fuel - 1) as nat);
    }
}

/// The sources of a document are those of its elements, whatever their depth, in
/// document order, and each element is asked once for every place it has.
pub proof fn law_sources_are_in_document_order(d: DomView, n: NodePtr, based: bool)
    requires
        finite_from(d, n, Reach::Children),
    ensures
        lists_all(
            |m: NodePtr| element_sources(d, m, based),
            child_lists(d),
            n,
            style_sources(d, n, based, d.len()),
        ),
{
    let own = |m: NodePtr| element_sources(d, m, based);
    lemma_routes_end(d, child_lists(d), n, Reach::Children, d.len());
    lemma_gathered_lists_all(own, child_lists(d), n, d.len());
    lemma_sources_gathered(d, n, based, d.len());
}

proof fn lemma_style_texts(d: DomView, kids: Seq<NodePtr>)
    ensures
        style_texts(d, kids) == kids.filter(|c: NodePtr| d[c as int] is Text).map_values(
            |c: NodePtr| StyleSourceView::Text(d[c as int]->Text_content),
        ),
    decreases kids.len(),
{
    reveal(Seq::filter);
    let is_text = |c: NodePtr| d[c as int] is Text;
    let source = |c: NodePtr| StyleSourceView::Text(d[c as int]->Text_content);
    if kids.len() > 0 {
        lemma_style_texts(d, kids.drop_last());
        assert(style_texts(d, kids) =~= kids.filter(is_text).map_values(source));
    } else {
        assert(style_texts(d, kids) =~= kids.filter(is_text).map_values(source));
    }
}

/// A style element contributes its texts, in order. A link to a stylesheet
/// contributes its address where there is a base, and nothing else contributes.
pub proof fn law_styles_and_links_are_sources(d: DomView, n: NodePtr, based: bool)
    ensures
        ({
            let own = element_sources(d, n, based);
            match d[n as int] {
                NodeView::Element(el) => {
                    &&& el.tag_name == "style"@ ==> own == el.children.filter(
                        |c: NodePtr| d[c as int] is Text,
                    ).map_values(|c: NodePtr| StyleSourceView::Text(d[c as int]->Text_content))
                    &&& el.tag_name == "link"@ && based && el.attributes.contains_pair(
                        "rel"@,
                        "stylesheet"@,
                    ) && el.attributes.contains_key("href"@) ==> own
                        == seq![StyleSourceView::Link(el.attributes["href"@])]
                    &&& own.len() > 0 ==> el.tag_name == "style"@ || el.tag_name == "link"@
                        && based && el.attributes.contains_pair("rel"@, "stylesheet"@)
                        && el.attributes.contains_key("href"@)
                },
                _ => own.len() == 0,
            }
        }),
{
    reveal_strlit("style");
    reveal_strlit("link");
    if let NodeView::Element(el) = d[n as int] {
        lemma_style_texts(d, el.children);
        assert("style"@.len() != "link"@.len());
    }
}

/// The text of every style element below a node is among the sources of the
/// node, and so is every link to a stylesheet, however deep they are.
pub proof fn law_no_style_is_too_deep(
    d: DomView,
    n: NodePtr,
    based: bool,
    route: Seq<int>,
    text: NodePtr,
)
    requires
        finite_from(d, n, Reach::Children),
        arrival(child_lists(d), n, route) is Some,
    ensures
        ({
            let all = style_sources(d, n, based, d.len());
            let at = arrival(child_lists(d), n, route)->0;
            match d[at as int] {
                NodeView::Element(el) => {
                    &&& el.tag_name == "style"@ && el.children.contains(text)
                        && d[text as int] is Text ==> all.contains(
                        StyleSourceView::Text(d[text as int]->Text_content),
                    )
                    &&& el.tag_name == "link"@ && based && el.attributes.contains_pair(
                        "rel"@,
                        "stylesheet"@,
                    ) && el.attributes.contains_key("href"@) ==> all.contains(
                        StyleSourceView::Link(el.attributes["href"@]),
                    )
                },
                _ => true,
            }
        }),
{
    let own = |m: NodePtr| element_sources(d, m, based);
    let all = style_sources(d, n, based, d.len());
    let at = arrival(child_lists(d), n, route)->0;
    law_sources_are_in_document_order(d, n, based);
    law_styles_and_links_are_sources(d, at, based);
    reveal_strlit("style");
    reveal_strlit("link");
    if let NodeView::Element(el) = d[at as int] {
        if el.tag_name == "style"@ && el.children.contains(text) && d[text as int] is Text {
            let is_text = |c: NodePtr| d[c as int] is Text;
            let source = |c: NodePtr| StyleSourceView::Text(d[c as int]->Text_content);
            broadcast use vstd::seq_lib::group_filter_ensures;

            let texts = el.children.filter(is_text);
            let k = choose|k: int| 0 <= k < el.children.len() && el.children[k] == text;
            assert(is_text(el.children[k]));
            assert(texts.contains(text));
            let i = choose|i: int| 0 <= i < texts.len() && texts[i] == text;
            assert(texts.map_values(source)[i] == source(text));
            assert(own(at).contains(source(text)));
            lemma_listed_has(own, child_lists(d), n, all, route, source(text));
        }
        if el.tag_name == "link"@ && based && el.attributes.contains_pair("rel"@, "stylesheet"@)
            && el.attributes.contains_key("href"@) {
            let link = StyleSourceView::Link(el.attributes["href"@]);
            assert(own(at)[0] == link);
            lemma_listed_has(own, child_lists(d), n, all, route, link);
        }
    }
}

/// Every source is the text of a style element below the node, or the address of
/// a link to a stylesheet there.
pub proof fn law_sources_come_from_elements(
    d: DomView,
    n: NodePtr,
    based: bool,
    source: StyleSourceView,
)
    requires
        finite_from(d, n, Reach::Children),
        style_sources(d, n, based, d.len()).contains(source),
    ensures
        exists|route: Seq<int>|
            {
                &&& #[trigger] arrival(child_lists(d), n, route) is Some
                &&& element_sources(
                    d,
                    arrival(child_lists(d), n, route)->0,
                    based,
                ).contains(source)
            },
{
    let own = |m: NodePtr| element_sources(d, m, based);
    law_sources_are_in_document_order(d, n, based);
    let route = lemma_listed_from(
        own,
        child_lists(d),
        n,
        style_sources(d, n, based, d.len()),
        source,
    );
    assert(arrival(child_lists(d), n, route) is Some);
}

} // verus!
