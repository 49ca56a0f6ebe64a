//! Style rules and element data.

use crate::dom::attributes::Attributes;
use vstd::prelude::*;

verus! {

/// Specificity packed as `0xAA_BB_CC`: ids, classes, types.
pub type Specificity = u32;

/// What selector matching reads of an element.
#[derive(Debug)]
pub struct ElementData {
    pub tag_name: String,
    pub attributes: Attributes,
    /// Whether a custom element has been upgraded. `false` has a meaning for
    /// custom elements alone: other elements are always defined.
    pub custom_element_defined: bool,
}

/// The view of [`ElementData`].
pub struct ElementDataView {
    pub tag_name: Seq<char>,
    pub attributes: Map<Seq<char>, Seq<char>>,
    pub custom_element_defined: bool,
}

impl View for ElementData {
    type V = ElementDataView;

    open spec fn view(&self) -> ElementDataView {
        ElementDataView {
            tag_name: self.tag_name@,
            attributes: self.attributes@,
            custom_element_defined: self.custom_element_defined,
        }
    }
}

impl Clone for ElementData {
    fn clone(&self) -> (res: Self)
        ensures
            res@ == self@,
    {
        ElementData {
            tag_name: self.tag_name.clone(),
            attributes: self.attributes.clone(),
            custom_element_defined: self.custom_element_defined,
        }
    }
}

/// The views of a list of element data.
pub open spec fn data_views(s: Seq<ElementData>) -> Seq<ElementDataView> {
    s.map_values(|e: ElementData| e@)
}

/// A selector as the cascade knows it: its source text and its weight.
#[derive(Debug)]
pub struct Selector {
    pub source: String,
    pub specificity: Specificity,
}

/// Where a rule comes from.
#[derive(Debug, Clone, Copy, PartialEq, Eq, PartialOrd, Ord, Structural)]
pub enum Origin {
    UserAgent,
    Author,
}

/// The rank of an origin among normal declarations: authors win.
pub open spec fn normal_rank_of(o: Origin) -> u8 {
    if o is UserAgent {
        0
    } else {
        1
    }
}

/// The rank of an origin among important declarations: the user agent wins.
pub open spec fn important_rank_of(o: Origin) -> u8 {
    if o is Author {
        0
    } else {
        1
    }
}

impl Origin {
    pub fn normal_rank(self) -> (rank: u8)
        ensures
            rank == normal_rank_of(self),
    {
        match self {
            Self::UserAgent => 0,
            Self::Author => 1,
        }
    }

    pub fn important_rank(self) -> (rank: u8)
        ensures
            rank == important_rank_of(self),
    {
        match self {
            Self::Author => 0,
            Self::UserAgent => 1,
        }
    }
}

/// A property with its value.
#[derive(Debug)]
pub struct Declaration {
    pub name: String,
    pub value: String,
    pub important: bool,
}

/// Declarations under a selector.
#[derive(Debug)]
pub struct Rule {
    pub selector: Selector,
    pub declarations: Vec<Declaration>,
    pub origin: Origin,
    pub source_order: usize,
}

} // verus!
