//! The cascade, with selectors parsed and matched by the `selectors` crate on
//! top of the library's view of an element.

use aurora::css::ast::{Declaration, ElementData, Origin, Rule, Selector};
use aurora::css::cascade::{StyleMap, Stylesheet};
use aurora::css::selectors_impl as lib;
use aurora::css::selectors_impl::{AurNonTSPseudoClass, AurSelectorParser, CascadeElement,
    FunctionalPseudoClass};
use aurora::dom::attributes::Attributes;
use cssparser::{AtRuleParser, CowRcStr, DeclarationParser, ParseError, Parser, ParserInput,
    ParserState, QualifiedRuleParser, RuleBodyItemParser, RuleBodyParser, StyleSheetParser, ToCss};
use selectors::attr::{AttrSelectorOperation, AttrSelectorOperator, CaseSensitivity,
    NamespaceConstraint};
use selectors::bloom::BloomFilter;
use selectors::context::{MatchingContext, MatchingForInvalidation, MatchingMode, NeedsSelectorFlags,
    QuirksMode, SelectorCaches};
use selectors::matching::{matches_selector, ElementSelectorFlags};
use selectors::parser::{NonTSPseudoClass, ParseRelative, PseudoElement, SelectorImpl, SelectorList,
    SelectorParseErrorKind};
use selectors::OpaqueElement;
use std::fmt;

#[derive(Clone, Debug, Default, Eq, Hash, PartialEq)]
struct Text(String);

impl From<&str> for Text {
    fn from(s: &str) -> Self {
        Text(s.to_string())
    }
}

impl std::borrow::Borrow<str> for Text {
    fn borrow(&self) -> &str {
        &self.0
    }
}

impl ToCss for Text {
    fn to_css<W: fmt::Write>(&self, dest: &mut W) -> fmt::Result {
        dest.write_str(&self.0)
    }
}

impl precomputed_hash::PrecomputedHash for Text {
    fn precomputed_hash(&self) -> u32 {
        lib::CssString::from_text(&self.0).precomputed_hash()
    }
}

#[derive(Clone, Debug, Eq, PartialEq)]
enum Pseudo {
    Simple(String),
    Lang(String),
    Host(Option<Vec<String>>),
    Other,
}

impl Pseudo {
    fn library(&self) -> AurNonTSPseudoClass {
        match self {
            Pseudo::Simple(name) => AurSelectorParser.parse_non_ts_pseudo_class(name),
            Pseudo::Lang(lang) => AurNonTSPseudoClass::Lang(lib::CssString::from_text(lang)),
            Pseudo::Host(inner) => AurSelectorParser.host_pseudo_class(inner.as_ref().map(|list| {
                list.iter()
                    .map(|source| Selector { source: source.clone(), specificity: 0 })
                    .collect()
            })),
            Pseudo::Other => AurNonTSPseudoClass::Unknown,
        }
    }
}

impl ToCss for Pseudo {
    fn to_css<W: fmt::Write>(&self, dest: &mut W) -> fmt::Result {
        dest.write_str(&self.library().css_text())
    }
}

impl NonTSPseudoClass for Pseudo {
    type Impl = Glue;
    fn is_active_or_hover(&self) -> bool {
        self.library().is_active_or_hover()
    }
    fn is_user_action_state(&self) -> bool {
        self.library().is_user_action_state()
    }
}

#[derive(Clone, Debug, Eq, PartialEq)]
struct Part(String);

impl ToCss for Part {
    fn to_css<W: fmt::Write>(&self, dest: &mut W) -> fmt::Result {
        dest.write_str(&self.0)
    }
}

impl PseudoElement for Part {
    type Impl = Glue;
}

#[derive(Clone, Debug, Eq, PartialEq)]
struct Glue;

impl SelectorImpl for Glue {
    type ExtraMatchingData<'a> = std::marker::PhantomData<&'a ()>;
    type AttrValue = Text;
    type Identifier = Text;
    type LocalName = Text;
    type NamespaceUrl = Text;
    type NamespacePrefix = Text;
    type BorrowedLocalName = str;
    type BorrowedNamespaceUrl = str;
    type NonTSPseudoClass = Pseudo;
    type PseudoElement = Part;
}

#[derive(Debug)]
struct Failed;

impl<'i> From<SelectorParseErrorKind<'i>> for Failed {
    fn from(_: SelectorParseErrorKind<'i>) -> Self {
        Failed
    }
}

struct SelectorParser;

impl<'i> selectors::parser::Parser<'i> for SelectorParser {
    type Impl = Glue;
    type Error = Failed;

    fn parse_is_and_where(&self) -> bool {
        AurSelectorParser.parse_is_and_where()
    }

    fn parse_has(&self) -> bool {
        AurSelectorParser.parse_has()
    }

    fn parse_slotted(&self) -> bool {
        AurSelectorParser.parse_slotted()
    }

    fn parse_non_ts_pseudo_class(
        &self,
        _location: cssparser::SourceLocation,
        name: CowRcStr<'i>,
    ) -> Result<Pseudo, ParseError<'i, Failed>> {
        Ok(Pseudo::Simple(name.to_string()))
    }

    fn parse_non_ts_functional_pseudo_class<'t>(
        &self,
        name: CowRcStr<'i>,
        parser: &mut Parser<'i, 't>,
        _after_part: bool,
    ) -> Result<Pseudo, ParseError<'i, Failed>> {
        match AurSelectorParser.functional_pseudo_class(&name) {
            FunctionalPseudoClass::Lang => {
                let lang = parser.expect_ident_or_string()?.to_string();
                Ok(Pseudo::Lang(lang))
            }
            FunctionalPseudoClass::Host => {
                match SelectorList::parse(&SelectorParser, parser, ParseRelative::No) {
                    Ok(list) => Ok(Pseudo::Host(Some(
                        list.slice().iter().map(|s| s.to_css_string()).collect(),
                    ))),
                    Err(_) => {
                        while parser.next().is_ok() {}
                        Ok(Pseudo::Host(None))
                    }
                }
            }
            _ => {
                while parser.next().is_ok() {}
                Ok(Pseudo::Other)
            }
        }
    }

    fn parse_pseudo_element(
        &self,
        location: cssparser::SourceLocation,
        name: CowRcStr<'i>,
    ) -> Result<Part, ParseError<'i, Failed>> {
        match AurSelectorParser.parse_pseudo_element(&name) {
            Ok(element) => Ok(Part(element.css_text())),
            Err(_) => Err(location.new_custom_error(Failed)),
        }
    }
}

fn case(c: CaseSensitivity) -> lib::CaseSensitivity {
    match c {
        CaseSensitivity::CaseSensitive => lib::CaseSensitivity::CaseSensitive,
        CaseSensitivity::AsciiCaseInsensitive => lib::CaseSensitivity::AsciiCaseInsensitive,
    }
}

#[derive(Clone, Debug)]
struct Matched<'a>(CascadeElement<'a>);

impl<'a> selectors::Element for Matched<'a> {
    type Impl = Glue;

    fn opaque(&self) -> OpaqueElement {
        OpaqueElement::new(self.0.element)
    }

    fn parent_element(&self) -> Option<Self> {
        self.0.parent_element().map(Matched)
    }

    fn parent_node_is_shadow_root(&self) -> bool {
        false
    }

    fn containing_shadow_host(&self) -> Option<Self> {
        None
    }

    fn is_pseudo_element(&self) -> bool {
        false
    }

    fn prev_sibling_element(&self) -> Option<Self> {
        assert!(self.0.sibling_index <= self.0.siblings.len());
        self.0.prev_sibling_element().map(Matched)
    }

    fn next_sibling_element(&self) -> Option<Self> {
        assert!(self.0.sibling_index < usize::MAX);
        self.0.next_sibling_element().map(Matched)
    }

    fn first_element_child(&self) -> Option<Self> {
        None
    }

    fn is_html_element_in_html_document(&self) -> bool {
        true
    }

    fn has_local_name(&self, local_name: &str) -> bool {
        self.0.has_local_name(local_name)
    }

    fn has_namespace(&self, ns: &str) -> bool {
        self.0.has_namespace(ns)
    }

    fn is_same_type(&self, other: &Self) -> bool {
        self.0.is_same_type(&other.0)
    }

    fn attr_matches(
        &self,
        ns: &NamespaceConstraint<&Text>,
        local_name: &Text,
        operation: &AttrSelectorOperation<&Text>,
    ) -> bool {
        let ns = match ns {
            NamespaceConstraint::Any => lib::NamespaceConstraint::Any,
            NamespaceConstraint::Specific(url) => {
                lib::NamespaceConstraint::Specific(lib::CssString::from_text(&url.0))
            }
        };
        let operation = match operation {
            AttrSelectorOperation::Exists => lib::AttrSelectorOperation::Exists,
            AttrSelectorOperation::WithValue { operator, case_sensitivity, value } => {
                lib::AttrSelectorOperation::WithValue {
                    operator: match operator {
                        AttrSelectorOperator::Equal => lib::AttrSelectorOperator::Equal,
                        AttrSelectorOperator::Includes => lib::AttrSelectorOperator::Includes,
                        AttrSelectorOperator::DashMatch => lib::AttrSelectorOperator::DashMatch,
                        AttrSelectorOperator::Prefix => lib::AttrSelectorOperator::Prefix,
                        AttrSelectorOperator::Substring => lib::AttrSelectorOperator::Substring,
                        AttrSelectorOperator::Suffix => lib::AttrSelectorOperator::Suffix,
                    },
                    case_sensitivity: case(*case_sensitivity),
                    value: lib::CssString::from_text(&value.0),
                }
            }
        };
        self.0.attr_matches(&ns, &lib::CssString::from_text(&local_name.0), &operation)
    }

    fn match_non_ts_pseudo_class(
        &self,
        pc: &Pseudo,
        _context: &mut MatchingContext<Glue>,
    ) -> bool {
        let element = self.0;
        let inner = |s: &Selector| {
            parse_selectors(&s.source).is_some_and(|list| {
                list.slice().iter().any(|selector| element_matches(selector, element))
            })
        };
        self.0.match_non_ts_pseudo_class(&pc.library(), &inner)
    }

    fn match_pseudo_element(&self, _pe: &Part, _context: &mut MatchingContext<Glue>) -> bool {
        false
    }

    fn apply_selector_flags(&self, _flags: ElementSelectorFlags) {}

    fn add_element_unique_hashes(&self, filter: &mut BloomFilter) -> bool {
        for hash in self.0.unique_hashes() {
            filter.insert_hash(hash);
        }
        true
    }

    fn is_link(&self) -> bool {
        self.0.is_link()
    }

    fn is_html_slot_element(&self) -> bool {
        false
    }

    fn has_id(&self, id: &Text, case_sensitivity: CaseSensitivity) -> bool {
        self.0.has_id(&lib::CssString::from_text(&id.0), case(case_sensitivity))
    }

    fn has_class(&self, name: &Text, case_sensitivity: CaseSensitivity) -> bool {
        self.0.has_class(&lib::CssString::from_text(&name.0), case(case_sensitivity))
    }

    fn has_custom_state(&self, _name: &Text) -> bool {
        false
    }

    fn imported_part(&self, _name: &Text) -> Option<Text> {
        None
    }

    fn is_part(&self, _name: &Text) -> bool {
        false
    }

    fn is_empty(&self) -> bool {
        false
    }

    fn is_root(&self) -> bool {
        self.0.is_root()
    }
}

fn element_matches(
    selector: &selectors::parser::Selector<Glue>,
    element: CascadeElement<'_>,
) -> bool {
    let mut caches = SelectorCaches::default();
    let mut context = MatchingContext::new(
        MatchingMode::Normal,
        None,
        &mut caches,
        QuirksMode::NoQuirks,
        NeedsSelectorFlags::No,
        MatchingForInvalidation::No,
    );
    matches_selector(selector, 0, None, &Matched(element), &mut context)
}

fn parse_selectors(source: &str) -> Option<SelectorList<Glue>> {
    let mut input = ParserInput::new(source);
    let mut parser = Parser::new(&mut input);
    SelectorList::parse(&SelectorParser, &mut parser, ParseRelative::No).ok()
}

struct ParsedRule {
    selectors: SelectorList<Glue>,
    declarations: Vec<(String, String, bool)>,
}

struct Body;

impl<'i> DeclarationParser<'i> for Body {
    type Declaration = (String, String, bool);
    type Error = Failed;

    fn parse_value<'t>(
        &mut self,
        name: CowRcStr<'i>,
        input: &mut Parser<'i, 't>,
        _start: &ParserState,
    ) -> Result<Self::Declaration, ParseError<'i, Failed>> {
        let mut value = String::new();
        let mut important = false;
        loop {
            if input.try_parse(cssparser::parse_important).is_ok() {
                important = true;
                continue;
            }
            let at = input.position();
            match input.next_including_whitespace() {
                Ok(_) => value.push_str(input.slice_from(at)),
                Err(_) => break,
            }
        }
        Ok((name.to_string(), value.trim().to_string(), important))
    }
}

impl<'i> QualifiedRuleParser<'i> for Body {
    type Prelude = ();
    type QualifiedRule = (String, String, bool);
    type Error = Failed;
}

impl<'i> AtRuleParser<'i> for Body {
    type Prelude = ();
    type AtRule = (String, String, bool);
    type Error = Failed;
}

impl<'i> RuleBodyItemParser<'i, (String, String, bool), Failed> for Body {
    fn parse_declarations(&self) -> bool {
        true
    }
    fn parse_qualified(&self) -> bool {
        false
    }
}

struct Top;

impl<'i> QualifiedRuleParser<'i> for Top {
    type Prelude = SelectorList<Glue>;
    type QualifiedRule = Vec<ParsedRule>;
    type Error = Failed;

    fn parse_prelude<'t>(
        &mut self,
        input: &mut Parser<'i, 't>,
    ) -> Result<SelectorList<Glue>, ParseError<'i, Failed>> {
        SelectorList::parse(&SelectorParser, input, ParseRelative::No)
    }

    fn parse_block<'t>(
        &mut self,
        selectors: SelectorList<Glue>,
        _start: &ParserState,
        input: &mut Parser<'i, 't>,
    ) -> Result<Vec<ParsedRule>, ParseError<'i, Failed>> {
        let declarations = RuleBodyParser::new(input, &mut Body).filter_map(Result::ok).collect();
        Ok(vec![ParsedRule { selectors, declarations }])
    }
}

impl<'i> AtRuleParser<'i> for Top {
    type Prelude = bool;
    type AtRule = Vec<ParsedRule>;
    type Error = Failed;

    fn parse_prelude<'t>(
        &mut self,
        name: CowRcStr<'i>,
        input: &mut Parser<'i, 't>,
    ) -> Result<bool, ParseError<'i, Failed>> {
        let at = input.position();
        while input.next().is_ok() {}
        let print = input.slice_from(at).trim() == "print";
        Ok(&*name == "media" && !print)
    }

    fn parse_block<'t>(
        &mut self,
        applies: bool,
        _start: &ParserState,
        input: &mut Parser<'i, 't>,
    ) -> Result<Vec<ParsedRule>, ParseError<'i, Failed>> {
        let mut nested = Vec::new();
        for rules in StyleSheetParser::new(input, &mut Top).flatten() {
            nested.extend(rules);
        }
        Ok(if applies { nested } else { Vec::new() })
    }
}

/// A stylesheet together with its selectors in matchable form.
struct Sheet {
    sheet: Stylesheet,
    selectors: Vec<selectors::parser::Selector<Glue>>,
}

impl Sheet {
    fn parse_with(css: &str, origin: Origin) -> Sheet {
        let mut input = ParserInput::new(css);
        let mut parser = Parser::new(&mut input);
        let mut sheet = Stylesheet::new();
        let mut selectors = Vec::new();
        for rules in StyleSheetParser::new(&mut parser, &mut Top).flatten() {
            for rule in rules {
                for selector in rule.selectors.slice() {
                    sheet.rules.push(Rule {
                        selector: Selector {
                            source: selector.to_css_string(),
                            specificity: selector.specificity(),
                        },
                        declarations: rule
                            .declarations
                            .iter()
                            .map(|(name, value, important)| Declaration {
                                name: name.clone(),
                                value: value.clone(),
                                important: *important,
                            })
                            .collect(),
                        origin,
                        source_order: sheet.rules.len(),
                    });
                    selectors.push(selector.clone());
                }
            }
        }
        Sheet { sheet, selectors }
    }

    fn parse(css: &str) -> Sheet {
        Sheet::parse_with(css, Origin::Author)
    }

    fn merge(&mut self, other: Sheet) {
        self.sheet.merge(other.sheet);
        self.selectors.extend(other.selectors);
    }

    fn styles_for(
        &self,
        element: &ElementData,
        ancestors: &[ElementData],
        siblings: &[ElementData],
        index: usize,
    ) -> StyleMap {
        let matched: Vec<bool> = self
            .selectors
            .iter()
            .map(|selector| {
                element_matches(selector, CascadeElement::new(element, ancestors, siblings, index))
            })
            .collect();
        assert_eq!(matched.len(), self.sheet.rules.len());
        self.sheet.styles_for(&matched)
    }
}

fn el(tag_name: &str) -> ElementData {
    element(tag_name, &[])
}

fn el_with(tag_name: &str, attrs: &[(&str, &str)]) -> ElementData {
    element(tag_name, attrs)
}

fn element(tag_name: &str, attrs: &[(&str, &str)]) -> ElementData {
    let mut attributes = Attributes::new();
    for (name, value) in attrs {
        attributes.insert(name.to_string(), value.to_string());
    }
    ElementData { tag_name: tag_name.to_string(), attributes, custom_element_defined: false }
}

fn styles(stylesheet: &Sheet, el: &ElementData) -> StyleMap {
    stylesheet.styles_for(el, &[], &[], 0)
}

fn styles_with_ancestors(
    stylesheet: &Sheet,
    el: &ElementData,
    ancestors: &[ElementData],
) -> StyleMap {
    stylesheet.styles_for(el, ancestors, &[], 0)
}

#[test]
fn parser_keeps_braces_inside_declaration_values() {
    let stylesheet = Sheet::parse(r#"p::before { content: "}"; color: red; } p { color: blue; }"#);

    assert_eq!(stylesheet.sheet.rules.len(), 2);
    assert_eq!(stylesheet.sheet.rules[0].declarations[0].name, "content");
    assert!(stylesheet.sheet.rules[0].declarations[0].value.contains('}'));
    assert_eq!(stylesheet.sheet.rules[1].declarations[0].value, "blue");
}

#[test]
fn important_declarations_override_later_normal_declarations() {
    let stylesheet = Sheet::parse("p { color: red !important; } p { color: blue; }");
    assert_eq!(styles(&stylesheet, &element("p", &[])).get("color"), Some("red"));
}

#[test]
fn child_combinator_requires_direct_parent() {
    let stylesheet = Sheet::parse("div > p { color: red; }");
    let div = el("div");
    let p = el("p");
    assert_eq!(
        styles_with_ancestors(&stylesheet, &p, &[div.clone()]).get("color"),
        Some("red")
    );
    let span = el("span");
    assert_eq!(styles_with_ancestors(&stylesheet, &p, &[div.clone(), span]).get("color"), None);
}

#[test]
fn attribute_selector_exact_match() {
    let stylesheet = Sheet::parse(r#"input[type=checkbox] { display: none; }"#);
    let checkbox = el_with("input", &[("type", "checkbox")]);
    let text_input = el_with("input", &[("type", "text")]);
    let no_type = el("input");

    assert_eq!(styles(&stylesheet, &checkbox).get("display"), Some("none"));
    assert_eq!(styles(&stylesheet, &text_input).get("display"), None);
    assert_eq!(styles(&stylesheet, &no_type).get("display"), None);
}

#[test]
fn attribute_selector_substring_match() {
    let stylesheet = Sheet::parse(r#"a[href*="example"] { color: green; }"#);
    let link = el_with("a", &[("href", "https://example.com/foo")]);
    let other = el_with("a", &[("href", "https://other.com")]);

    assert_eq!(styles(&stylesheet, &link).get("color"), Some("green"));
    assert_eq!(styles(&stylesheet, &other).get("color"), None);
}

#[test]
fn not_pseudo_class_negates_match() {
    let stylesheet = Sheet::parse("p:not(.lead) { color: gray; }");
    let plain = el_with("p", &[]);
    let lead = el_with("p", &[("class", "lead")]);

    assert_eq!(styles(&stylesheet, &plain).get("color"), Some("gray"));
    assert_eq!(styles(&stylesheet, &lead).get("color"), None);
}

#[test]
fn specificity_counts_attribute_selectors() {
    let stylesheet = Sheet::parse("p { color: blue; } p[lang] { color: red; }");
    let p_lang = el_with("p", &[("lang", "en")]);
    assert_eq!(styles(&stylesheet, &p_lang).get("color"), Some("red"));
}

#[test]
fn adjacent_sibling_combinator_matches_immediately_preceding() {
    let stylesheet = Sheet::parse("h2 + p { margin-top: 0; }");
    let h2 = el("h2");
    let p = el("p");
    let siblings = vec![h2, p.clone()];
    assert_eq!(stylesheet.styles_for(&p, &[], &siblings, 1).get("margin-top"), Some("0"));
    assert_eq!(stylesheet.styles_for(&p, &[], &siblings, 0).get("margin-top"), None);
}

#[test]
fn is_pseudo_class_matches_any_in_list() {
    let stylesheet = Sheet::parse(":is(h1, h2, h3) { font-weight: bold; }");
    assert_eq!(styles(&stylesheet, &el("h1")).get("font-weight"), Some("bold"));
    assert_eq!(styles(&stylesheet, &el("h2")).get("font-weight"), Some("bold"));
    assert_eq!(styles(&stylesheet, &el("p")).get("font-weight"), None);
}

#[test]
fn media_query_rules_are_included() {
    let stylesheet = Sheet::parse("@media screen { p { color: red; } }");
    assert_eq!(styles(&stylesheet, &el("p")).get("color"), Some("red"));
}

#[test]
fn print_media_query_rules_are_excluded() {
    let stylesheet =
        Sheet::parse("@media print { p { color: invisible; } } p { color: visible; }");
    assert_eq!(styles(&stylesheet, &el("p")).get("color"), Some("visible"));
}

fn user_agent_sheet() -> Sheet {
    Sheet::parse_with(
        "head, style, script, title { display: none; } html, body, div, p { display: block; }",
        Origin::UserAgent,
    )
}

#[test]
fn ua_sets_display_none_on_head() {
    let ua = user_agent_sheet();
    let head = el("head");
    assert_eq!(styles(&ua, &head).get("display"), Some("none"));
    let style_el = el("style");
    assert_eq!(styles(&ua, &style_el).get("display"), Some("none"));
}

#[test]
fn author_origin_overrides_user_agent_origin() {
    let mut stylesheet = user_agent_sheet();
    stylesheet.merge(Sheet::parse("body { display: flex; }"));

    assert_eq!(
        styles(&stylesheet, &el("body")).get("display"),
        Some("flex"),
        "author styles must beat same-specificity UA rules"
    );
}

#[test]
fn important_user_agent_rules_beat_important_author_rules() {
    let mut stylesheet = Sheet::parse_with("p { color: red !important; }", Origin::UserAgent);
    stylesheet.merge(Sheet::parse("#a { color: blue !important; }"));
    assert_eq!(styles(&stylesheet, &el_with("p", &[("id", "a")])).get("color"), Some("red"));
    assert_eq!(Origin::Author.important_rank(), 0);
    assert_eq!(Origin::UserAgent.important_rank(), 1);
    assert_eq!(Origin::UserAgent.normal_rank(), 0);
    assert_eq!(Origin::Author.normal_rank(), 1);
}

#[test]
fn later_rules_win_among_equals_and_merging_renumbers() {
    let mut stylesheet = Sheet::parse("p { color: red; } p { color: green; }");
    assert_eq!(styles(&stylesheet, &el("p")).get("color"), Some("green"));
    stylesheet.merge(Sheet::parse("p { color: blue; }"));
    assert_eq!(styles(&stylesheet, &el("p")).get("color"), Some("blue"));
    let orders: Vec<usize> = stylesheet.sheet.rules.iter().map(|r| r.source_order).collect();
    assert_eq!(orders, vec![0, 1, 2]);
}

#[test]
fn pseudo_classes_of_custom_elements() {
    let stylesheet = Sheet::parse(
        ":defined { color: red; } :host { top: 1px; } :hover { right: 3px; } \
         :something-else { right: 4px; }",
    );
    let plain = styles(&stylesheet, &el("p"));
    assert_eq!(plain.get("color"), Some("red"));
    assert_eq!(plain.get("top"), None);
    assert_eq!(plain.get("right"), None);

    let mut custom = el_with("my-el", &[("class", "wide x")]);
    assert_eq!(styles(&stylesheet, &custom).get("color"), None);
    assert_eq!(styles(&stylesheet, &custom).get("top"), Some("1px"));
    custom.custom_element_defined = true;
    assert_eq!(styles(&stylesheet, &custom).get("color"), Some("red"));

    let hosting = |classes: &[&str]| {
        Pseudo::Host(Some(classes.iter().map(|c| c.to_string()).collect())).library()
    };
    let matches = |e: &ElementData, pc: &AurNonTSPseudoClass| {
        let element = CascadeElement::new(e, &[], &[], 0);
        element.match_non_ts_pseudo_class(pc, &|s: &Selector| {
            parse_selectors(&s.source)
                .is_some_and(|list| element_matches(&list.slice()[0], element))
        })
    };
    assert!(matches(&custom, &hosting(&[".narrow", ".wide"])));
    assert!(!matches(&custom, &hosting(&[".narrow"])));
    assert!(!matches(&el_with("p", &[("class", "wide")]), &hosting(&[".wide"])));
    assert!(matches(&custom, &Pseudo::Host(None).library()));
}

#[test]
fn languages_are_inherited_and_match_by_prefix() {
    let stylesheet = Sheet::parse(":lang(en) { color: red; }");
    let english = el_with("div", &[("lang", "en-GB")]);
    let german = el_with("div", &[("lang", "de")]);
    let p = el("p");
    assert_eq!(
        styles_with_ancestors(&stylesheet, &p, &[english.clone()]).get("color"),
        Some("red")
    );
    assert_eq!(styles_with_ancestors(&stylesheet, &p, &[english, german]).get("color"), None);
    assert_eq!(styles(&stylesheet, &p).get("color"), None);
}

#[test]
fn attribute_operators() {
    let e = el_with("a", &[("class", "one two"), ("lang", "en-US"), ("href", "abc")]);
    for (selector, expected) in [
        ("[class~=two]", true),
        ("[class~=tw]", false),
        ("[lang|=en]", true),
        ("[lang|=e]", false),
        ("[href^=ab]", true),
        ("[href^=b]", false),
        ("[href$=bc]", true),
        ("[href$=b]", false),
        ("[href=ABC i]", true),
        ("[href=ABC]", false),
        ("[title]", false),
        (":link", true),
        (":root", true),
        (".two", true),
        ("#one", false),
    ] {
        let list = parse_selectors(selector).expect("a selector");
        let found = element_matches(&list.slice()[0], CascadeElement::new(&e, &[], &[], 0));
        assert_eq!(found, expected, "{selector}");
    }
}

#[test]
fn hashes_follow_fnv1a() {
    assert_eq!(lib::fnv1a(""), 0x811c9dc5);
    assert_eq!(lib::fnv1a("a"), 0xe40c292c);
    assert_eq!(lib::fnv1a("foobar"), 0xbf9cf968);
    let e = el_with("a", &[("id", "foobar")]);
    let hashes = CascadeElement::new(&e, &[], &[], 0).unique_hashes();
    assert_eq!(hashes, vec![0xe40c292c, 0xbf9cf968]);
}

#[test]
fn unknown_pseudo_elements_are_rejected() {
    assert!(parse_selectors("p::before").is_some());
    assert!(parse_selectors("p::selection").is_some());
    assert!(parse_selectors("p::nonsense").is_none());
}
