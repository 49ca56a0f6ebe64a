//! What a selector engine asks about an element.
//!
//! [`CascadeElement`] answers the questions that combinators, attribute
//! selectors and pseudo-classes put to an element in its context.

use crate::css::ast::{data_views, ElementData, ElementDataView, Selector};
use crate::text::{contains_char, contains_str, ends_with, eq_ignore_ascii_case, has_prefix,
    has_substring, has_suffix, has_word, lowercase, same_ignoring_case, split_whitespace,
    starts_with, text_eq, to_ascii_lowercase, words};
use vstd::prelude::*;
use vstd::slice::slice_subrange;
use vstd::utf8::encode_utf8;

verus! {

/// Selector parsing failed.
#[derive(Debug)]
pub struct AurSelectorParseError;

/// A string of a selector.
#[derive(Debug)]
pub struct CssString(pub String);

/// The FNV-1a hash of a byte sequence.
pub open spec fn fnv(bytes: Seq<u8>) -> u32
    decreases bytes.len(),
{
    if bytes.len() == 0 {
        2166136261u32
    } else {
        (fnv(bytes.drop_last()) ^ (bytes.last() as u32)).wrapping_mul(16777619u32)
    }
}

/// The FNV-1a hash of the UTF-8 encoding of `s`.
pub fn fnv1a(s: &str) -> (hash: u32)
    ensures
        hash == fnv(encode_utf8(s@)),
{
    let bytes = s.as_bytes();
    let mut hash: u32 = 2166136261;
    let mut i: usize = 0;
    while i < bytes.len()
        invariant
            i <= bytes.len(),
            bytes@ == encode_utf8(s@),
            hash == fnv(bytes@.take(i as int)),
        decreases bytes.len() - i,
    {
        proof {
            assert(bytes@.take(i + 1).drop_last() == bytes@.take(i as int));
            assert(bytes@.take(i + 1).last() == bytes@[i as int]);
        }
        hash = hash ^ (bytes[i] as u32);
        hash = hash.wrapping_mul(16777619);
        i = i + 1;
    }
    assert(bytes@.take(i as int) == bytes@);
    hash
}

impl CssString {
    /// The string with the characters of `s`.
    pub fn from_text(s: &str) -> (res: Self)
        ensures
            res.0@ == s@,
    {
        CssString(s.to_owned())
    }

    /// The string as it stands in a style sheet.
    pub fn css_text(&self) -> (res: String)
        ensures
            res@ == self.0@,
    {
        self.0.clone()
    }

    pub fn precomputed_hash(&self) -> (hash: u32)
        ensures
            hash == fnv(encode_utf8(self.0@)),
    {
        let hash: u32 = fnv1a(self.0.as_str());
        hash
    }
}

/// Pseudo-classes that depend on more than the tree structure.
#[derive(Debug)]
pub enum AurNonTSPseudoClass {
    Link,
    Visited,
    Hover,
    Focus,
    FocusWithin,
    Active,
    Checked,
    Disabled,
    Enabled,
    Placeholder,
    Lang(CssString),
    /// Every element except a custom element that has not been upgraded.
    Defined,
    /// Custom elements: tag names with a hyphen.
    Host,
    /// Custom elements that match one of the inner selectors.
    HostWith(Vec<Selector>),
    /// Any other name; matches nothing.
    Unknown,
}

/// The name of a pseudo-class without arguments.
pub open spec fn simple_name(pc: AurNonTSPseudoClass) -> Option<Seq<char>> {
    match pc {
        AurNonTSPseudoClass::Link => Some("link"@),
        AurNonTSPseudoClass::Visited => Some("visited"@),
        AurNonTSPseudoClass::Hover => Some("hover"@),
        AurNonTSPseudoClass::Focus => Some("focus"@),
        AurNonTSPseudoClass::FocusWithin => Some("focus-within"@),
        AurNonTSPseudoClass::Active => Some("active"@),
        AurNonTSPseudoClass::Checked => Some("checked"@),
        AurNonTSPseudoClass::Disabled => Some("disabled"@),
        AurNonTSPseudoClass::Enabled => Some("enabled"@),
        AurNonTSPseudoClass::Placeholder => Some("placeholder"@),
        AurNonTSPseudoClass::Defined => Some("defined"@),
        AurNonTSPseudoClass::Host => Some("host"@),
        _ => None,
    }
}

/// Whether `name` is the name of a pseudo-class without arguments.
pub open spec fn is_simple_name(name: Seq<char>) -> bool {
    ||| name == "link"@
    ||| name == "visited"@
    ||| name == "hover"@
    ||| name == "focus"@
    ||| name == "focus-within"@
    ||| name == "active"@
    ||| name == "checked"@
    ||| name == "disabled"@
    ||| name == "enabled"@
    ||| name == "placeholder"@
    ||| name == "defined"@
    ||| name == "host"@
}

/// The text of a pseudo-class in a style sheet.
pub open spec fn pseudo_class_text(pc: AurNonTSPseudoClass) -> Seq<char> {
    match pc {
        AurNonTSPseudoClass::Link => ":link"@,
        AurNonTSPseudoClass::Visited => ":visited"@,
        AurNonTSPseudoClass::Hover => ":hover"@,
        AurNonTSPseudoClass::Focus => ":focus"@,
        AurNonTSPseudoClass::FocusWithin => ":focus-within"@,
        AurNonTSPseudoClass::Active => ":active"@,
        AurNonTSPseudoClass::Checked => ":checked"@,
        AurNonTSPseudoClass::Disabled => ":disabled"@,
        AurNonTSPseudoClass::Enabled => ":enabled"@,
        AurNonTSPseudoClass::Placeholder => "::placeholder"@,
        AurNonTSPseudoClass::Lang(l) => ":lang("@ + l.0@ + ")"@,
        AurNonTSPseudoClass::Defined => ":defined"@,
        AurNonTSPseudoClass::Host => ":host"@,
        AurNonTSPseudoClass::HostWith(_) => ":host(...)"@,
        AurNonTSPseudoClass::Unknown => ":unknown"@,
    }
}

impl AurNonTSPseudoClass {
    /// The pseudo-class as it stands in a style sheet.
    pub fn css_text(&self) -> (res: String)
        ensures
            res@ == pseudo_class_text(*self),
    {
        match self {
            Self::Link => ":link".to_owned(),
            Self::Visited => ":visited".to_owned(),
            Self::Hover => ":hover".to_owned(),
            Self::Focus => ":focus".to_owned(),
            Self::FocusWithin => ":focus-within".to_owned(),
            Self::Active => ":active".to_owned(),
            Self::Checked => ":checked".to_owned(),
            Self::Disabled => ":disabled".to_owned(),
            Self::Enabled => ":enabled".to_owned(),
            Self::Placeholder => "::placeholder".to_owned(),
            Self::Lang(l) => {
                let mut res: String = ":lang(".to_owned();
                res.push_str(l.0.as_str());
                res.push_str(")");
                res
            },
            Self::Defined => ":defined".to_owned(),
            Self::Host => ":host".to_owned(),
            Self::HostWith(_) => ":host(...)".to_owned(),
            Self::Unknown => ":unknown".to_owned(),
        }
    }

    /// Whether this is `:active` or `:hover`.
    pub fn is_active_or_hover(&self) -> (res: bool)
        ensures
            res == (*self is Active || *self is Hover),
    {
        matches!(self, Self::Active | Self::Hover)
    }

    /// Whether this depends on what the user does.
    pub fn is_user_action_state(&self) -> (res: bool)
        ensures
            res == (*self is Active || *self is Hover || *self is Focus || *self is FocusWithin),
    {
        matches!(self, Self::Active | Self::Hover | Self::Focus | Self::FocusWithin)
    }
}

/// Pseudo-elements.
#[derive(Debug, Clone, Copy, PartialEq, Eq, Hash, Structural)]
pub enum AurPseudoElement {
    Before,
    After,
    Placeholder,
    Selection,
}

/// The name of a pseudo-element.
pub open spec fn pseudo_element_name(pe: AurPseudoElement) -> Seq<char> {
    match pe {
        AurPseudoElement::Before => "before"@,
        AurPseudoElement::After => "after"@,
        AurPseudoElement::Placeholder => "placeholder"@,
        AurPseudoElement::Selection => "selection"@,
    }
}

impl AurPseudoElement {
    /// The pseudo-element as it stands in a style sheet.
    pub fn css_text(&self) -> (res: String)
        ensures
            res@ == "::"@ + pseudo_element_name(*self),
    {
        let mut res: String = "::".to_owned();
        match self {
            Self::Before => res.push_str("before"),
            Self::After => res.push_str("after"),
            Self::Placeholder => res.push_str("placeholder"),
            Self::Selection => res.push_str("selection"),
        }
        res
    }
}

/// What the arguments of a functional pseudo-class are.
#[derive(Debug, Clone, Copy, PartialEq, Eq, Structural)]
pub enum FunctionalPseudoClass {
    /// One identifier or string: a language.
    Lang,
    /// A selector list.
    Host,
    /// Arguments that are skipped.
    Unknown,
}

/// Which selectors are understood.
#[derive(Debug)]
pub struct AurSelectorParser;

impl AurSelectorParser {
    pub fn parse_is_and_where(&self) -> (res: bool)
        ensures
            res,
    {
        true
    }

    pub fn parse_has(&self) -> (res: bool)
        ensures
            !res,
    {
        false
    }

    pub fn parse_slotted(&self) -> (res: bool)
        ensures
            res,
    {
        true
    }

    /// The pseudo-class with the given name and no arguments.
    pub fn parse_non_ts_pseudo_class(&self, name: &str) -> (res: AurNonTSPseudoClass)
        ensures
            is_simple_name(name@) ==> simple_name(res) == Some(name@),
            !is_simple_name(name@) ==> res is Unknown,
    {
        if text_eq(name, "link") {
            AurNonTSPseudoClass::Link
        } else if text_eq(name, "visited") {
            AurNonTSPseudoClass::Visited
        } else if text_eq(name, "hover") {
            AurNonTSPseudoClass::Hover
        } else if text_eq(name, "focus") {
            AurNonTSPseudoClass::Focus
        } else if text_eq(name, "focus-within") {
            AurNonTSPseudoClass::FocusWithin
        } else if text_eq(name, "active") {
            AurNonTSPseudoClass::Active
        } else if text_eq(name, "checked") {
            AurNonTSPseudoClass::Checked
        } else if text_eq(name, "disabled") {
            AurNonTSPseudoClass::Disabled
        } else if text_eq(name, "enabled") {
            AurNonTSPseudoClass::Enabled
        } else if text_eq(name, "placeholder") {
            AurNonTSPseudoClass::Placeholder
        } else if text_eq(name, "defined") {
            AurNonTSPseudoClass::Defined
        } else if text_eq(name, "host") {
            AurNonTSPseudoClass::Host
        } else {
            AurNonTSPseudoClass::Unknown
        }
    }

    /// How the arguments of the named functional pseudo-class are read.
    pub fn functional_pseudo_class(&self, name: &str) -> (res: FunctionalPseudoClass)
        ensures
            res is Lang == (name@ == "lang"@),
            res is Host == (name@ == "host"@),
    {
        proof {
            reveal_strlit("lang");
            reveal_strlit("host");
            assert("lang"@[0] != "host"@[0]);
        }
        if text_eq(name, "lang") {
            FunctionalPseudoClass::Lang
        } else if text_eq(name, "host") {
            FunctionalPseudoClass::Host
        } else {
            FunctionalPseudoClass::Unknown
        }
    }

    /// `:host(..)` over the inner selectors, or plain `:host` where they could
    /// not be read.
    pub fn host_pseudo_class(&self, inner: Option<Vec<Selector>>) -> (res: AurNonTSPseudoClass)
        ensures
            match inner {
                Some(list) => res == AurNonTSPseudoClass::HostWith(list),
                None => res is Host,
            },
    {
        match inner {
            Some(list) => AurNonTSPseudoClass::HostWith(list),
            None => AurNonTSPseudoClass::Host,
        }
    }

    /// The pseudo-element with the given name.
    pub fn parse_pseudo_element(&self, name: &str) -> (res: Result<
        AurPseudoElement,
        AurSelectorParseError,
    >)
        ensures
            match res {
                Ok(pe) => pseudo_element_name(pe) == name@,
                Err(_) => forall|pe: AurPseudoElement| #[trigger] pseudo_element_name(pe) != name@,
            },
    {
        if text_eq(name, "before") {
            Ok(AurPseudoElement::Before)
        } else if text_eq(name, "after") {
            Ok(AurPseudoElement::After)
        } else if text_eq(name, "placeholder") {
            Ok(AurPseudoElement::Placeholder)
        } else if text_eq(name, "selection") {
            Ok(AurPseudoElement::Selection)
        } else {
            Err(AurSelectorParseError)
        }
    }
}

/// Whether letter case counts.
#[derive(Debug, Clone, Copy, PartialEq, Eq, Structural)]
pub enum CaseSensitivity {
    CaseSensitive,
    AsciiCaseInsensitive,
}

/// The operator of an attribute selector.
#[derive(Debug, Clone, Copy, PartialEq, Eq, Structural)]
pub enum AttrSelectorOperator {
    Equal,
    Includes,
    DashMatch,
    Prefix,
    Substring,
    Suffix,
}

/// The namespace that an attribute selector asks for.
#[derive(Debug)]
pub enum NamespaceConstraint {
    Any,
    /// Empty for no namespace.
    Specific(CssString),
}

/// What an attribute selector asks of the value.
#[derive(Debug)]
pub enum AttrSelectorOperation {
    Exists,
    WithValue {
        operator: AttrSelectorOperator,
        case_sensitivity: CaseSensitivity,
        value: CssString,
    },
}

/// Whether an attribute value satisfies an operator.
pub open spec fn operator_holds(
    operator: AttrSelectorOperator,
    actual: Seq<char>,
    expected: Seq<char>,
) -> bool {
    match operator {
        AttrSelectorOperator::Equal => actual == expected,
        AttrSelectorOperator::Includes => words(actual).contains(expected),
        AttrSelectorOperator::DashMatch => actual == expected || has_prefix(
            actual,
            expected.push('-'),
        ),
        AttrSelectorOperator::Prefix => has_prefix(actual, expected),
        AttrSelectorOperator::Suffix => has_suffix(actual, expected),
        AttrSelectorOperator::Substring => has_substring(actual, expected),
    }
}

/// Whether an attribute value, or its absence, satisfies an operation.
pub open spec fn operation_holds(op: AttrSelectorOperation, actual: Option<Seq<char>>) -> bool {
    match op {
        AttrSelectorOperation::Exists => actual is Some,
        AttrSelectorOperation::WithValue { operator, case_sensitivity, value } => actual matches Some(
            a,
        ) && (if case_sensitivity is CaseSensitive {
            operator_holds(operator, a, value.0@)
        } else {
            operator_holds(operator, lowercase(a), lowercase(value.0@))
        }),
    }
}

/// Equality with or without letter case.
pub open spec fn same_with(case: CaseSensitivity, a: Seq<char>, b: Seq<char>) -> bool {
    if case is CaseSensitive {
        a == b
    } else {
        same_ignoring_case(a, b)
    }
}

/// The value of an attribute of element data.
pub open spec fn data_attribute(e: ElementDataView, name: Seq<char>) -> Option<Seq<char>> {
    if e.attributes.contains_key(name) {
        Some(e.attributes[name])
    } else {
        None
    }
}

/// Whether some word of `value` is `name`, with or without letter case.
pub open spec fn has_word_with(case: CaseSensitivity, value: Seq<char>, name: Seq<char>) -> bool {
    exists|i: int|
        0 <= i < words(value).len() && same_with(case, #[trigger] words(value)[i], name)
}

/// Whether `f` accepts one of the selectors.
pub open spec fn some_accepted<F: Fn(&Selector) -> bool>(f: F, list: Seq<Selector>) -> bool {
    exists|i: int| 0 <= i < list.len() && call_ensures(f, (&#[trigger] list[i],), true)
}

/// Whether `f` rejects every selector.
pub open spec fn all_rejected<F: Fn(&Selector) -> bool>(f: F, list: Seq<Selector>) -> bool {
    forall|i: int| 0 <= i < list.len() ==> call_ensures(f, (&#[trigger] list[i],), false)
}

/// Whether the language `value` is `target` or one of its sublanguages.
pub open spec fn language_matches(value: Seq<char>, target: Seq<char>) -> bool {
    lowercase(value) == lowercase(target) || has_prefix(
        lowercase(value),
        lowercase(target).push('-'),
    )
}

/// The language in force: that of the element, else of the innermost ancestor
/// that declares one.
pub open spec fn language_of(e: ElementDataView, ancestors: Seq<ElementDataView>) -> Option<
    Seq<char>,
>
    decreases ancestors.len(),
{
    match data_attribute(e, "lang"@) {
        Some(v) => Some(v),
        None => if ancestors.len() == 0 {
            None
        } else {
            language_of(ancestors.last(), ancestors.drop_last())
        },
    }
}

fn operator_matches(operator: AttrSelectorOperator, actual: &str, expected: &str) -> (res: bool)
    ensures
        res == operator_holds(operator, actual@, expected@),
{
    match operator {
        AttrSelectorOperator::Equal => text_eq(actual, expected),
        AttrSelectorOperator::Includes => has_word(actual, expected),
        AttrSelectorOperator::DashMatch => {
            let mut dashed: String = expected.to_owned();
            dashed.push('-');
            text_eq(actual, expected) || starts_with(actual, dashed.as_str())
        },
        AttrSelectorOperator::Prefix => starts_with(actual, expected),
        AttrSelectorOperator::Suffix => ends_with(actual, expected),
        AttrSelectorOperator::Substring => contains_str(actual, expected),
    }
}

fn same_text_with(case: CaseSensitivity, a: &str, b: &str) -> (res: bool)
    ensures
        res == same_with(case, a@, b@),
{
    match case {
        CaseSensitivity::CaseSensitive => text_eq(a, b),
        CaseSensitivity::AsciiCaseInsensitive => eq_ignore_ascii_case(a, b),
    }
}

fn is_language(value: &str, target: &str) -> (res: bool)
    ensures
        res == language_matches(value@, target@),
{
    let value = to_ascii_lowercase(value);
    let target = to_ascii_lowercase(target);
    let mut dashed: String = target.clone();
    dashed.push('-');
    value == target || starts_with(value.as_str(), dashed.as_str())
}

/// An element with its ancestors, outermost first, the elements of its child
/// list and its position among them.
#[derive(Debug, Clone, Copy)]
pub struct CascadeElement<'a> {
    pub element: &'a ElementData,
    pub ancestors: &'a [ElementData],
    pub siblings: &'a [ElementData],
    pub sibling_index: usize,
}

impl<'a> CascadeElement<'a> {
    pub fn new(
        element: &'a ElementData,
        ancestors: &'a [ElementData],
        siblings: &'a [ElementData],
        sibling_index: usize,
    ) -> (res: Self)
        ensures
            res.element == element,
            res.ancestors == ancestors,
            res.siblings == siblings,
            res.sibling_index == sibling_index,
    {
        CascadeElement { element, ancestors, siblings, sibling_index }
    }

    /// The parent, with its own ancestors; its siblings are not known.
    pub fn parent_element(&self) -> (res: Option<CascadeElement<'a>>)
        ensures
            match res {
                Some(p) => self.ancestors@.len() > 0 && p.element == self.ancestors@.last()
                    && p.ancestors@ == self.ancestors@.drop_last() && p.siblings@.len() == 0
                    && p.sibling_index == 0,
                None => self.ancestors@.len() == 0,
            },
    {
        if self.ancestors.len() == 0 {
            return None;
        }
        let i: usize = self.ancestors.len() - 1;
        let above = slice_subrange(self.ancestors, 0, i);
        let none = slice_subrange(self.ancestors, 0, 0);
        assert(above@ =~= self.ancestors@.drop_last());
        Some(
            CascadeElement {
                element: &self.ancestors[i],
                ancestors: above,
                siblings: none,
                sibling_index: 0,
            },
        )
    }

    /// The element before this one in the same child list.
    pub fn prev_sibling_element(&self) -> (res: Option<CascadeElement<'a>>)
        requires
            self.sibling_index <= self.siblings@.len(),
        ensures
            match res {
                Some(p) => self.sibling_index > 0 && p.sibling_index == self.sibling_index - 1
                    && p.element == self.siblings@[p.sibling_index as int] && p.ancestors
                    == self.ancestors && p.siblings == self.siblings,
                None => self.sibling_index == 0,
            },
    {
        if self.sibling_index == 0 {
            return None;
        }
        let i: usize = self.sibling_index - 1;
        Some(
            CascadeElement {
                element: &self.siblings[i],
                ancestors: self.ancestors,
                siblings: self.siblings,
                sibling_index: i,
            },
        )
    }

    /// The element behind this one in the same child list.
    pub fn next_sibling_element(&self) -> (res: Option<CascadeElement<'a>>)
        requires
            self.sibling_index < usize::MAX,
        ensures
            match res {
                Some(n) => n.sibling_index == self.sibling_index + 1 && n.sibling_index
                    < self.siblings@.len() && n.element == self.siblings@[n.sibling_index as int]
                    && n.ancestors == self.ancestors && n.siblings == self.siblings,
                None => self.sibling_index + 1 >= self.siblings@.len(),
            },
    {
        let next: usize = self.sibling_index + 1;
        if next >= self.siblings.len() {
            return None;
        }
        Some(
            CascadeElement {
                element: &self.siblings[next],
                ancestors: self.ancestors,
                siblings: self.siblings,
                sibling_index: next,
            },
        )
    }

    /// Whether the tag name is `local_name` up to ASCII case.
    pub fn has_local_name(&self, local_name: &str) -> (res: bool)
        ensures
            res == same_ignoring_case(self.element@.tag_name, local_name@),
    {
        eq_ignore_ascii_case(self.element.tag_name.as_str(), local_name)
    }

    /// Every element counts as having the empty namespace.
    pub fn has_namespace(&self, ns: &str) -> (res: bool)
        ensures
            res == (ns@.len() == 0),
    {
        ns.is_empty()
    }

    /// Whether both have the same tag name up to ASCII case.
    pub fn is_same_type(&self, other: &CascadeElement<'_>) -> (res: bool)
        ensures
            res == same_ignoring_case(self.element@.tag_name, other.element@.tag_name),
    {
        eq_ignore_ascii_case(self.element.tag_name.as_str(), other.element.tag_name.as_str())
    }

    /// Whether the attribute with the given name, read in small letters,
    /// satisfies the operation. Attributes have no namespace.
    pub fn attr_matches(
        &self,
        ns: &NamespaceConstraint,
        local_name: &CssString,
        operation: &AttrSelectorOperation,
    ) -> (res: bool)
        ensures
            res == ((*ns matches NamespaceConstraint::Specific(n) ==> n.0@.len() == 0)
                && operation_holds(
                *operation,
                data_attribute(self.element@, lowercase(local_name.0@)),
            )),
    {
        if let NamespaceConstraint::Specific(n) = ns {
            if !n.0.as_str().is_empty() {
                return false;
            }
        }
        let name = to_ascii_lowercase(local_name.0.as_str());
        let actual = self.element.attributes.get(name.as_str());
        match operation {
            AttrSelectorOperation::Exists => actual.is_some(),
            AttrSelectorOperation::WithValue { operator, case_sensitivity, value } => match actual {
                None => false,
                Some(actual) => match case_sensitivity {
                    CaseSensitivity::AsciiCaseInsensitive => {
                        let a = to_ascii_lowercase(actual.as_str());
                        let e = to_ascii_lowercase(value.0.as_str());
                        operator_matches(*operator, a.as_str(), e.as_str())
                    },
                    CaseSensitivity::CaseSensitive => operator_matches(
                        *operator,
                        actual.as_str(),
                        value.0.as_str(),
                    ),
                },
            },
        }
    }

    /// Whether the language in force is `lang` or one of its sublanguages.
    pub fn has_language(&self, lang: &str) -> (res: bool)
        ensures
            res == (language_of(self.element@, data_views(self.ancestors@)) matches Some(v)
                && language_matches(v, lang@)),
    {
        if let Some(own) = self.element.attributes.get("lang") {
            return is_language(own.as_str(), lang);
        }
        let ghost views = data_views(self.ancestors@);
        let mut i: usize = self.ancestors.len();
        proof {
            assert(views.take(i as int) == views);
            if views.len() > 0 {
                assert(language_of(self.element@, views) == language_of(
                    views.last(),
                    views.drop_last(),
                ));
            }
        }
        while i > 0
            invariant
                i <= self.ancestors.len(),
                views == data_views(self.ancestors@),
                i == 0 ==> language_of(self.element@, views) is None,
                i > 0 ==> language_of(self.element@, views) == language_of(
                    views[i - 1],
                    views.take(i - 1),
                ),
            decreases i,
        {
            i = i - 1;
            assert(views[i as int] == self.ancestors@[i as int]@);
            if let Some(v) = self.ancestors[i].attributes.get("lang") {
                return is_language(v.as_str(), lang);
            }
            proof {
                let rest = views.take(i as int);
                if i > 0 {
                    assert(rest.last() == views[i - 1]);
                    assert(rest.drop_last() =~= views.take(i - 1));
                }
            }
        }
        false
    }

    /// Whether the element matches a pseudo-class. State that only a running
    /// page has never matches; `:host(..)` asks `element_matches` of its inner
    /// selectors.
    pub fn match_non_ts_pseudo_class<F: Fn(&Selector) -> bool>(
        &self,
        pc: &AurNonTSPseudoClass,
        element_matches: &F,
    ) -> (res: bool)
        requires
            forall|s: &Selector| call_requires(*element_matches, (s,)),
        ensures
            match *pc {
                AurNonTSPseudoClass::Defined => res == (!self.element@.tag_name.contains('-')
                    || self.element@.custom_element_defined),
                AurNonTSPseudoClass::Link => res == is_link_data(self.element@),
                AurNonTSPseudoClass::Lang(lang) => res == (language_of(
                    self.element@,
                    data_views(self.ancestors@),
                ) matches Some(v) && language_matches(v, lang.0@)),
                AurNonTSPseudoClass::Host => res == self.element@.tag_name.contains('-'),
                AurNonTSPseudoClass::HostWith(list) => if res {
                    self.element@.tag_name.contains('-') && some_accepted(
                        *element_matches,
                        list@,
                    )
                } else {
                    self.element@.tag_name.contains('-') ==> all_rejected(
                        *element_matches,
                        list@,
                    )
                },
                _ => !res,
            },
    {
        match pc {
            AurNonTSPseudoClass::Defined => !contains_char(self.element.tag_name.as_str(), '-')
                || self.element.custom_element_defined,
            AurNonTSPseudoClass::Link => self.is_link(),
            AurNonTSPseudoClass::Lang(lang) => self.has_language(lang.0.as_str()),
            AurNonTSPseudoClass::Host => contains_char(self.element.tag_name.as_str(), '-'),
            AurNonTSPseudoClass::HostWith(list) => {
                if !contains_char(self.element.tag_name.as_str(), '-') {
                    return false;
                }
                let mut i: usize = 0;
                while i < list.len()
                    invariant
                        i <= list.len(),
                        forall|s: &Selector| call_requires(*element_matches, (s,)),
                        *pc == AurNonTSPseudoClass::HostWith(*list),
                        self.element@.tag_name.contains('-'),
                        forall|j: int|
                            0 <= j < i ==> call_ensures(
                                *element_matches,
                                (&#[trigger] list@[j],),
                                false,
                            ),
                    decreases list.len() - i,
                {
                    if element_matches(&list[i]) {
                        assert(call_ensures(*element_matches, (&list@[i as int],), true));
                        assert(some_accepted(*element_matches, list@));
                        return true;
                    }
                    i = i + 1;
                }
                false
            },
            _ => false,
        }
    }

    /// Whether this is an anchor with an `href`.
    pub fn is_link(&self) -> (res: bool)
        ensures
            res == is_link_data(self.element@),
    {
        eq_ignore_ascii_case(self.element.tag_name.as_str(), "a")
            && self.element.attributes.contains_key("href")
    }

    /// Whether the id is `id`.
    pub fn has_id(&self, id: &CssString, case_sensitivity: CaseSensitivity) -> (res: bool)
        ensures
            res == (data_attribute(self.element@, "id"@) matches Some(v) && same_with(
                case_sensitivity,
                v,
                id.0@,
            )),
    {
        match self.element.attributes.get("id") {
            None => false,
            Some(v) => same_text_with(case_sensitivity, v.as_str(), id.0.as_str()),
        }
    }

    /// Whether `name` is one of the words of the class attribute.
    pub fn has_class(&self, name: &CssString, case_sensitivity: CaseSensitivity) -> (res: bool)
        ensures
            res == (data_attribute(self.element@, "class"@) matches Some(v) && has_word_with(
                case_sensitivity,
                v,
                name.0@,
            )),
    {
        match self.element.attributes.get("class") {
            None => false,
            Some(v) => {
                let all = split_whitespace(v.as_str());
                let ghost list = words(v@);
                let mut i: usize = 0;
                while i < all.len()
                    invariant
                        i <= all.len(),
                        list == words(v@),
                        all@.map_values(|w: String| w@) == list,
                        data_attribute(self.element@, "class"@) == Some(v@),
                        forall|j: int|
                            0 <= j < i ==> !same_with(
                                case_sensitivity,
                                #[trigger] words(v@)[j],
                                name.0@,
                            ),
                    decreases all.len() - i,
                {
                    assert(list[i as int] == all@.map_values(|w: String| w@)[i as int]);
                    if same_text_with(case_sensitivity, all[i].as_str(), name.0.as_str()) {
                        assert(same_with(case_sensitivity, words(v@)[i as int], name.0@));
                        assert(has_word_with(case_sensitivity, v@, name.0@));
                        return true;
                    }
                    i = i + 1;
                }
                false
            },
        }
    }

    /// Whether the element has no element above it.
    pub fn is_root(&self) -> (res: bool)
        ensures
            res == (self.ancestors@.len() == 0),
    {
        self.ancestors.len() == 0
    }

    /// The hashes by which a filter knows the element: that of its tag name
    /// and, where it has one, that of its id.
    pub fn unique_hashes(&self) -> (res: Vec<u32>)
        ensures
            res@ == (match data_attribute(self.element@, "id"@) {
                Some(id) => seq![
                    fnv(encode_utf8(self.element@.tag_name)),
                    fnv(encode_utf8(id)),
                ],
                None => seq![fnv(encode_utf8(self.element@.tag_name))],
            }),
    {
        let mut res: Vec<u32> = Vec::new();
        res.push(fnv1a(self.element.tag_name.as_str()));
        if let Some(id) = self.element.attributes.get("id") {
            res.push(fnv1a(id.as_str()));
            assert(res@ =~= seq![
                fnv(encode_utf8(self.element@.tag_name)),
                fnv(encode_utf8(id@)),
            ]);
        } else {
            assert(res@ =~= seq![fnv(encode_utf8(self.element@.tag_name))]);
        }
        res
    }
}

/// Whether element data describes an anchor with an `href`.
pub open spec fn is_link_data(e: ElementDataView) -> bool {
    same_ignoring_case(e.tag_name, "a"@) && e.attributes.contains_key("href"@)
}

} // verus!
