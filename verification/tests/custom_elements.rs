//! Custom-element names, definitions and the state of elements.

use aurora::js::custom_elements::{CeRegistry, CeState, DefineError};
use aurora::js::element_names::is_valid_custom_element_name;
use aurora::js::registry::native_ce_reactions_default;

#[test]
fn valid_custom_element_names_require_a_hyphen_and_lowercase_start() {
    assert!(is_valid_custom_element_name("my-element"));
    assert!(is_valid_custom_element_name("ytd-video-renderer"));
    assert!(is_valid_custom_element_name("x-"));

    assert!(!is_valid_custom_element_name(""));
    assert!(!is_valid_custom_element_name("noHyphen"));
    assert!(!is_valid_custom_element_name("div"));
    assert!(!is_valid_custom_element_name("-leading"));
    assert!(!is_valid_custom_element_name("1-digit-start"));
    assert!(!is_valid_custom_element_name("My-Element"));
    assert!(!is_valid_custom_element_name("my-Element"));
}

#[test]
fn reserved_svg_and_mathml_names_are_not_custom_element_names() {
    for name in [
        "annotation-xml",
        "color-profile",
        "font-face",
        "font-face-src",
        "font-face-uri",
        "font-face-format",
        "font-face-name",
        "missing-glyph",
    ] {
        assert!(!is_valid_custom_element_name(name), "{name} must stay reserved");
    }
}

#[test]
fn define_errors_map_to_the_dom_exceptions_the_spec_requires() {
    assert_eq!(DefineError::InvalidName.exception_name(), "SyntaxError");
    assert_eq!(DefineError::NameInUse.exception_name(), "NotSupportedError");
    assert_eq!(DefineError::ConstructorInUse.exception_name(), "NotSupportedError");
}

#[test]
fn element_state_defaults_to_undefined_and_round_trips() {
    let mut registry = CeRegistry::default();
    assert_eq!(registry.element_state(7), CeState::Undefined);
    registry.set_element_state(7, CeState::Custom);
    assert_eq!(registry.element_state(7), CeState::Custom);
}

#[test]
fn construction_stack_is_last_in_first_out() {
    let mut registry = CeRegistry::default();
    assert_eq!(registry.construction_stack_top(), None);
    registry.push_construction(1);
    registry.push_construction(2);
    assert_eq!(registry.construction_stack_top(), Some(2));
    assert_eq!(registry.pop_construction(), Some(2));
    assert_eq!(registry.construction_stack_top(), Some(1));
    assert_eq!(registry.pop_construction(), Some(1));
    assert_eq!(registry.construction_stack_top(), None);
}

#[test]
fn native_ce_reactions_default_on_with_explicit_opt_out() {
    assert!(native_ce_reactions_default(None));
    assert!(native_ce_reactions_default(Some("1")));
    assert!(native_ce_reactions_default(Some("")));
    assert!(!native_ce_reactions_default(Some("0")));
    assert!(!native_ce_reactions_default(Some("false")));
    assert!(!native_ce_reactions_default(Some("off")));
}
