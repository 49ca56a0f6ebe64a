//! What is read of the renderer's tree.

use crate::blitz_document::names::{QualName, QualNameView};
use crate::text::text_eq;
use vstd::prelude::*;

verus! {

/// An attribute of a rendered element.
#[derive(Debug)]
pub struct RenderAttribute {
    pub name: QualName,
    pub value: String,
}

/// The view of [`RenderAttribute`].
pub struct RenderAttributeView {
    pub name: QualNameView,
    pub value: Seq<char>,
}

impl View for RenderAttribute {
    type V = RenderAttributeView;

    open spec fn view(&self) -> RenderAttributeView {
        RenderAttributeView { name: self.name@, value: self.value@ }
    }
}

/// The views of a list of attributes.
pub open spec fn attribute_views(s: Seq<RenderAttribute>) -> Seq<RenderAttributeView> {
    s.map_values(|a: RenderAttribute| a@)
}

/// A rendered element.
#[derive(Debug)]
pub struct RenderElement {
    pub name: QualName,
    pub attrs: Vec<RenderAttribute>,
}

/// The view of [`RenderElement`].
pub struct RenderElementView {
    pub name: QualNameView,
    pub attrs: Seq<RenderAttributeView>,
}

impl View for RenderElement {
    type V = RenderElementView;

    open spec fn view(&self) -> RenderElementView {
        RenderElementView { name: self.name@, attrs: attribute_views(self.attrs@) }
    }
}

/// What a rendered node is.
#[derive(Debug)]
pub enum RenderData {
    Document,
    Element(RenderElement),
    /// A block that layout inserted; it carries element data too.
    AnonymousBlock(RenderElement),
    Text(String),
    Comment,
}

/// The view of [`RenderData`].
pub enum RenderDataView {
    Document,
    Element(RenderElementView),
    AnonymousBlock(RenderElementView),
    Text(Seq<char>),
    Comment,
}

impl View for RenderData {
    type V = RenderDataView;

    open spec fn view(&self) -> RenderDataView {
        match self {
            RenderData::Document => RenderDataView::Document,
            RenderData::Element(el) => RenderDataView::Element(el@),
            RenderData::AnonymousBlock(el) => RenderDataView::AnonymousBlock(el@),
            RenderData::Text(t) => RenderDataView::Text(t@),
            RenderData::Comment => RenderDataView::Comment,
        }
    }
}

/// The element data of a rendered node.
pub open spec fn element_of(data: RenderDataView) -> Option<RenderElementView> {
    match data {
        RenderDataView::Element(el) => Some(el),
        RenderDataView::AnonymousBlock(el) => Some(el),
        _ => None,
    }
}

/// The value of the first attribute with the local name `name`.
pub open spec fn first_value(attrs: Seq<RenderAttributeView>, name: Seq<char>) -> Option<Seq<char>>
    decreases attrs.len(),
{
    if attrs.len() == 0 {
        None
    } else if attrs[0].name.local == name {
        Some(attrs[0].value)
    } else {
        first_value(attrs.drop_first(), name)
    }
}

/// The value of an attribute of a rendered node.
pub open spec fn value_of(data: RenderDataView, name: Seq<char>) -> Option<Seq<char>> {
    match element_of(data) {
        Some(el) => first_value(el.attrs, name),
        None => None,
    }
}

impl RenderData {
    /// The element data, if there is any.
    pub fn downcast_element(&self) -> (res: Option<&RenderElement>)
        ensures
            match res {
                Some(el) => element_of(self@) == Some(el@),
                None => element_of(self@) is None,
            },
    {
        match self {
            RenderData::Element(el) => Some(el),
            RenderData::AnonymousBlock(el) => Some(el),
            _ => None,
        }
    }

    /// The value of the first attribute with the local name `name`.
    pub fn attr(&self, name: &str) -> (res: Option<&String>)
        ensures
            match res {
                Some(v) => value_of(self@, name@) == Some(v@),
                None => value_of(self@, name@) is None,
            },
    {
        match self.downcast_element() {
            Some(el) => {
                let mut i: usize = 0;
                proof {
                    assert(el@.attrs.skip(0) == el@.attrs);
                }
                while i < el.attrs.len()
                    invariant
                        i <= el.attrs.len(),
                        element_of(self@) == Some(el@),
                        first_value(el@.attrs, name@) == first_value(
                            el@.attrs.skip(i as int),
                            name@,
                        ),
                    decreases el.attrs.len() - i,
                {
                    proof {
                        assert(el@.attrs.skip(i as int)[0] == el.attrs@[i as int]@);
                        assert(el@.attrs.skip(i as int).drop_first() == el@.attrs.skip(i + 1));
                    }
                    if text_eq(el.attrs[i].name.local.as_str(), name) {
                        return Some(&el.attrs[i].value);
                    }
                    i = i + 1;
                }
                None
            },
            None => None,
        }
    }
}

/// A rendered node.
#[derive(Debug)]
pub struct RenderNode {
    pub parent: Option<usize>,
    pub children: Vec<usize>,
    pub data: RenderData,
}

/// The view of [`RenderNode`].
pub struct RenderNodeView {
    pub parent: Option<usize>,
    pub children: Seq<usize>,
    pub data: RenderDataView,
}

impl View for RenderNode {
    type V = RenderNodeView;

    open spec fn view(&self) -> RenderNodeView {
        RenderNodeView { parent: self.parent, children: self.children@, data: self.data@ }
    }
}

/// The nodes of the renderer, by id.
#[derive(Debug)]
pub struct RenderTree {
    pub nodes: Vec<Option<RenderNode>>,
}

/// The contents of a [`RenderTree`].
pub type RenderView = Seq<Option<RenderNodeView>>;

impl View for RenderTree {
    type V = RenderView;

    open spec fn view(&self) -> RenderView {
        self.nodes@.map_values(
            |n: Option<RenderNode>|
                match n {
                    Some(node) => Some(node@),
                    None => None,
                },
        )
    }
}

/// The node with the given id.
pub open spec fn node_at(t: RenderView, id: usize) -> Option<RenderNodeView> {
    if id < t.len() {
        t[id as int]
    } else {
        None
    }
}

impl RenderTree {
    /// The node with the given id.
    pub fn get_node(&self, id: usize) -> (res: Option<&RenderNode>)
        ensures
            match res {
                Some(node) => node_at(self@, id) == Some(node@),
                None => node_at(self@, id) is None,
            },
    {
        if id < self.nodes.len() {
            match &self.nodes[id] {
                Some(node) => Some(node),
                None => None,
            }
        } else {
            None
        }
    }
}

} // verus!
