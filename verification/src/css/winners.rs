//! Which declarations apply, and which of them wins.

use crate::css::ast::{Declaration, Origin, Rule};
use crate::css::cascade::{applied, applied_of, winner, Applied, Weight};
use vstd::prelude::*;

verus! {

/// Whether a weight is above another: importance counts first, then the origin,
/// then the selector, then the place in the source.
pub open spec fn outweighs(a: Weight, b: Weight) -> bool {
    ||| a.important && !b.important
    ||| a.important == b.important && a.origin_rank > b.origin_rank
    ||| a.important == b.important && a.origin_rank == b.origin_rank && a.specificity
        > b.specificity
    ||| a.important == b.important && a.origin_rank == b.origin_rank && a.specificity
        == b.specificity && a.source_order > b.source_order
}

/// The winner of a property is a declaration of it that none outweighs, and of
/// equals the last. There is none only where nothing declares the property.
pub proof fn law_winner_has_the_greatest_weight(decls: Seq<Applied>, name: Seq<char>)
    ensures
        match winner(decls, name) {
            Some(w) => exists|i: int|
                0 <= i < decls.len() && #[trigger] decls[i] == w && w.name == name && (forall|j: int|
                    0 <= j < decls.len() && #[trigger] decls[j].name == name ==> !outweighs(
                        decls[j].weight,
                        w.weight,
                    )) && forall|j: int|
                    i < j < decls.len() && #[trigger] decls[j].name == name ==> outweighs(
                        w.weight,
                        decls[j].weight,
                    ),
            None => forall|i: int| 0 <= i < decls.len() ==> #[trigger] decls[i].name != name,
        },
    decreases decls.len(),
{
    if decls.len() > 0 {
        let front = decls.drop_last();
        law_winner_has_the_greatest_weight(front, name);
        let last = decls.len() - 1;
        assert forall|j: int| 0 <= j < front.len() implies #[trigger] decls[j] == front[j] by {}
        match winner(decls, name) {
            Some(w) => {
                if winner(front, name) == Some(w) && !(decls[last] == w) {
                    let i = choose|i: int|
                        0 <= i < front.len() && #[trigger] front[i] == w && w.name == name && (
                        forall|j: int|
                            0 <= j < front.len() && #[trigger] front[j].name == name ==> !outweighs(
                                front[j].weight,
                                w.weight,
                            )) && forall|j: int|
                            i < j < front.len() && #[trigger] front[j].name == name ==> outweighs(
                                w.weight,
                                front[j].weight,
                            );
                    assert(decls[i] == w);
                } else {
                    assert(decls[last] == w);
                    if let Some(b) = winner(front, name) {
                        assert forall|j: int|
                            0 <= j < decls.len() && #[trigger] decls[j].name
                                == name implies !outweighs(decls[j].weight, w.weight) by {
                            if j < last {
                                assert(front[j].name == name);
                                assert(!outweighs(front[j].weight, b.weight));
                            }
                        }
                    } else {
                        assert forall|j: int|
                            0 <= j < decls.len() && #[trigger] decls[j].name
                                == name implies !outweighs(decls[j].weight, w.weight) by {
                            if j < last {
                                assert(front[j].name != name);
                            }
                        }
                    }
                }
            },
            None => {
                assert forall|i: int| 0 <= i < decls.len() implies #[trigger] decls[i].name
                    != name by {
                    if i < last {
                        assert(front[i].name != name);
                    }
                }
            },
        }
    }
}

/// Whether an applied declaration is `decl` of `rule`, weighed by what the two say.
pub open spec fn comes_from(a: Applied, rule: Rule, decl: Declaration) -> bool {
    &&& a.name == decl.name@
    &&& a.value == decl.value@
    &&& a.weight.important == decl.important
    &&& a.weight.specificity == rule.selector.specificity
    &&& a.weight.source_order == rule.source_order
    &&& a.weight.origin_rank == (match (rule.origin, decl.important) {
        (Origin::Author, false) => 1u8,
        (Origin::Author, true) => 0u8,
        (Origin::UserAgent, false) => 0u8,
        (Origin::UserAgent, true) => 1u8,
    })
}

/// The declarations of a rule apply in the order in which they are written.
pub proof fn law_declarations_keep_their_order(rule: Rule, i: int)
    requires
        0 <= i < rule.declarations@.len(),
    ensures
        applied_of(rule).len() == rule.declarations@.len(),
        comes_from(applied_of(rule)[i], rule, rule.declarations@[i]),
{
}

/// What applies is what the rules that matched declare, rule after rule, and
/// nothing that any other rule declares.
pub proof fn law_matched_rules_apply_in_order(rules: Seq<Rule>, matched: Seq<bool>)
    requires
        rules.len() == matched.len(),
    ensures
        applied(rules, matched) == Seq::new(
            rules.len(),
            |i: int|
                if matched[i] {
                    applied_of(rules[i])
                } else {
                    Seq::empty()
                },
        ).flatten(),
    decreases rules.len(),
{
    let blocks = Seq::new(
        rules.len(),
        |i: int|
            if matched[i] {
                applied_of(rules[i])
            } else {
                Seq::empty()
            },
    );
    if rules.len() == 0 {
        assert(blocks.flatten() =~= Seq::<Applied>::empty());
    } else {
        let (front, said) = (rules.drop_last(), matched.drop_last());
        law_matched_rules_apply_in_order(front, said);
        let before = Seq::new(
            front.len(),
            |i: int|
                if said[i] {
                    applied_of(front[i])
                } else {
                    Seq::empty()
                },
        );
        assert(blocks.drop_last() =~= before);
        blocks.lemma_flatten_and_flatten_alt_are_equivalent();
        before.lemma_flatten_and_flatten_alt_are_equivalent();
        assert(blocks.flatten_alt() == before.flatten_alt() + blocks.last());
        assert(applied(rules, matched) =~= blocks.flatten());
    }
}

} // verus!
