//! Which language an element is in.

use crate::css::ast::ElementDataView;
use crate::css::selectors_impl::language_of;
use vstd::prelude::*;

verus! {

/// An element's language is what its own `lang` says, or else that of the nearest
/// ancestor that has one; it has none only where none of them has one.
pub proof fn law_nearest_language_counts(e: ElementDataView, ancestors: Seq<ElementDataView>)
    ensures
        ({
            let line = ancestors.push(e);
            match language_of(e, ancestors) {
                Some(v) => exists|i: int|
                    0 <= i < line.len() && (#[trigger] line[i]).attributes.contains_key("lang"@)
                        && line[i].attributes["lang"@] == v && forall|j: int|
                        i < j < line.len() ==> !(#[trigger] line[j]).attributes.contains_key(
                            "lang"@,
                        ),
                None => forall|j: int|
                    0 <= j < line.len() ==> !(#[trigger] line[j]).attributes.contains_key("lang"@),
            }
        }),
    decreases ancestors.len(),
{
    let line = ancestors.push(e);
    let last = line.len() - 1;
    assert(line[last] == e);
    if !e.attributes.contains_key("lang"@) && ancestors.len() > 0 {
        let (up, rest) = (ancestors.last(), ancestors.drop_last());
        law_nearest_language_counts(up, rest);
        assert(rest.push(up) =~= ancestors);
        assert forall|j: int| 0 <= j < last implies #[trigger] line[j] == ancestors[j] by {}
        if let Some(v) = language_of(e, ancestors) {
            let i = choose|i: int|
                0 <= i < ancestors.len() && (#[trigger] ancestors[i]).attributes.contains_key(
                    "lang"@,
                ) && ancestors[i].attributes["lang"@] == v && forall|j: int|
                    i < j < ancestors.len()
                        ==> !(#[trigger] ancestors[j]).attributes.contains_key("lang"@);
            assert(line[i] == ancestors[i]);
        }
    }
}

} // verus!
