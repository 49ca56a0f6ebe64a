//! Custom element names.

use crate::text::{chars_of, text_eq};
use vstd::prelude::*;

verus! {

/// Whether a name looks like a custom element name but belongs to SVG or
/// MathML.
pub open spec fn is_reserved(name: Seq<char>) -> bool {
    ||| name == "annotation-xml"@
    ||| name == "color-profile"@
    ||| name == "font-face"@
    ||| name == "font-face-src"@
    ||| name == "font-face-uri"@
    ||| name == "font-face-format"@
    ||| name == "font-face-name"@
    ||| name == "missing-glyph"@
}

/// Whether `c` is a character that custom element names are built from.
pub open spec fn is_name_char(c: char) -> bool {
    ||| c == '-'
    ||| c == '.'
    ||| c == '_'
    ||| '0' <= c <= '9'
    ||| 'a' <= c <= 'z'
    ||| c == '\u{B7}'
    ||| '\u{C0}' <= c <= '\u{D6}'
    ||| '\u{D8}' <= c <= '\u{F6}'
    ||| '\u{F8}' <= c <= '\u{37D}'
    ||| '\u{37F}' <= c <= '\u{1FFF}'
    ||| '\u{200C}' <= c <= '\u{200D}'
    ||| '\u{203F}' <= c <= '\u{2040}'
    ||| '\u{2070}' <= c <= '\u{218F}'
    ||| '\u{2C00}' <= c <= '\u{2FEF}'
    ||| '\u{3001}' <= c <= '\u{D7FF}'
    ||| '\u{F900}' <= c <= '\u{FDCF}'
    ||| '\u{FDF0}' <= c <= '\u{FFFD}'
    ||| '\u{10000}' <= c <= '\u{EFFFF}'
}

/// Whether a name can be that of a custom element: it starts with an ASCII
/// small letter, holds a hyphen, is built from name characters and is not
/// reserved.
pub open spec fn is_custom_name(name: Seq<char>) -> bool {
    &&& !is_reserved(name)
    &&& name.len() > 0
    &&& 'a' <= name[0] <= 'z'
    &&& name.contains('-')
    &&& forall|i: int| 0 <= i < name.len() ==> is_name_char(#[trigger] name[i])
}

pub fn is_pcen_char(c: char) -> (res: bool)
    ensures
        res == is_name_char(c),
{
    c == '-' || c == '.' || c == '_' || ('0' <= c && c <= '9') || ('a' <= c && c <= 'z') || c
        == '\u{B7}' || ('\u{C0}' <= c && c <= '\u{D6}') || ('\u{D8}' <= c && c <= '\u{F6}') || (
    '\u{F8}' <= c && c <= '\u{37D}') || ('\u{37F}' <= c && c <= '\u{1FFF}') || ('\u{200C}' <= c && c
        <= '\u{200D}') || ('\u{203F}' <= c && c <= '\u{2040}') || ('\u{2070}' <= c && c
        <= '\u{218F}') || ('\u{2C00}' <= c && c <= '\u{2FEF}') || ('\u{3001}' <= c && c
        <= '\u{D7FF}') || ('\u{F900}' <= c && c <= '\u{FDCF}') || ('\u{FDF0}' <= c && c
        <= '\u{FFFD}') || ('\u{10000}' <= c && c <= '\u{EFFFF}')
}

fn is_reserved_name(name: &str) -> (res: bool)
    ensures
        res == is_reserved(name@),
{
    text_eq(name, "annotation-xml") || text_eq(name, "color-profile") || text_eq(name, "font-face")
        || text_eq(name, "font-face-src") || text_eq(name, "font-face-uri") || text_eq(
        name,
        "font-face-format",
    ) || text_eq(name, "font-face-name") || text_eq(name, "missing-glyph")
}

/// Whether `name` is a valid custom element name.
pub fn is_valid_custom_element_name(name: &str) -> (res: bool)
    ensures
        res == is_custom_name(name@),
{
    if is_reserved_name(name) {
        return false;
    }
    let chars = chars_of(name);
    if chars.len() == 0 {
        return false;
    }
    if !('a' <= chars[0] && chars[0] <= 'z') {
        return false;
    }
    let mut has_hyphen = false;
    let mut i: usize = 1;
    while i < chars.len()
        invariant
            1 <= i <= chars.len(),
            chars@ == name@,
            'a' <= chars@[0] <= 'z',
            has_hyphen == chars@.take(i as int).contains('-'),
            forall|j: int| 0 <= j < i ==> is_name_char(#[trigger] chars@[j]),
        decreases chars.len() - i,
    {
        let c: char = chars[i];
        let ghost before = chars@.take(i as int);
        let ghost after = chars@.take(i + 1);
        proof {
            assert(after == before.push(c));
            if before.contains('-') {
                let j = choose|j: int| 0 <= j < before.len() && before[j] == '-';
                assert(after[j] == '-');
            }
            if c == '-' {
                assert(after[i as int] == '-');
            }
        }
        if c == '-' {
            has_hyphen = true;
        }
        if !is_pcen_char(c) {
            return false;
        }
        i = i + 1;
    }
    assert(chars@.take(i as int) == chars@);
    has_hyphen
}

} // verus!
