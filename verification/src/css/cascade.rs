//! The cascade: which declaration of a property wins.

use crate::css::ast::{important_rank_of, normal_rank_of, Declaration, Rule, Specificity};
use crate::dom::attributes::Attributes;
use crate::text::text_eq;
use vstd::prelude::*;

verus! {

/// What decides between two declarations of the same property, most important
/// first.
#[derive(Debug, Clone, Copy)]
pub struct Weight {
    pub important: bool,
    pub origin_rank: u8,
    pub specificity: Specificity,
    pub source_order: usize,
}

/// Whether a declaration of weight `a` that comes later beats one of weight `b`.
pub open spec fn beats(a: Weight, b: Weight) -> bool {
    if a.important != b.important {
        a.important
    } else if a.origin_rank != b.origin_rank {
        a.origin_rank > b.origin_rank
    } else if a.specificity != b.specificity {
        a.specificity > b.specificity
    } else {
        a.source_order >= b.source_order
    }
}

/// A declaration that applies to an element.
pub struct Applied {
    pub name: Seq<char>,
    pub value: Seq<char>,
    pub weight: Weight,
}

/// The weight of a declaration of a rule.
pub open spec fn weight_of(rule: Rule, decl: Declaration) -> Weight {
    Weight {
        important: decl.important,
        origin_rank: if decl.important {
            important_rank_of(rule.origin)
        } else {
            normal_rank_of(rule.origin)
        },
        specificity: rule.selector.specificity,
        source_order: rule.source_order,
    }
}

/// The declarations of one rule.
pub open spec fn applied_of(rule: Rule) -> Seq<Applied> {
    rule.declarations@.map_values(
        |decl: Declaration|
            Applied { name: decl.name@, value: decl.value@, weight: weight_of(rule, decl) },
    )
}

/// The declarations of the rules that match, in order.
pub open spec fn applied(rules: Seq<Rule>, matched: Seq<bool>) -> Seq<Applied>
    decreases rules.len(),
{
    if rules.len() == 0 || matched.len() == 0 {
        Seq::empty()
    } else if matched.last() {
        applied(rules.drop_last(), matched.drop_last()) + applied_of(rules.last())
    } else {
        applied(rules.drop_last(), matched.drop_last())
    }
}

/// The declaration of `name` that wins.
pub open spec fn winner(decls: Seq<Applied>, name: Seq<char>) -> Option<Applied>
    decreases decls.len(),
{
    if decls.len() == 0 {
        None
    } else {
        let before = winner(decls.drop_last(), name);
        let last = decls.last();
        if last.name == name && (before matches Some(b) ==> beats(last.weight, b.weight)) {
            Some(last)
        } else {
            before
        }
    }
}

/// The properties of an element.
#[derive(Debug)]
pub struct StyleMap {
    values: Attributes,
}

impl View for StyleMap {
    type V = Map<Seq<char>, Seq<char>>;

    closed spec fn view(&self) -> Map<Seq<char>, Seq<char>> {
        self.values@
    }
}

impl StyleMap {
    /// The value of a property.
    pub fn get(&self, name: &str) -> (res: Option<&str>)
        ensures
            match res {
                Some(v) => self@.contains_key(name@) && v@ == self@[name@],
                None => !self@.contains_key(name@),
            },
    {
        match self.values.get(name) {
            Some(v) => Some(v.as_str()),
            None => None,
        }
    }
}

/// Style rules in source order.
#[derive(Debug)]
pub struct Stylesheet {
    pub rules: Vec<Rule>,
}

fn later_wins(a: Weight, b: Weight) -> (res: bool)
    ensures
        res == beats(a, b),
{
    if a.important != b.important {
        a.important
    } else if a.origin_rank != b.origin_rank {
        a.origin_rank > b.origin_rank
    } else if a.specificity != b.specificity {
        a.specificity > b.specificity
    } else {
        a.source_order >= b.source_order
    }
}

/// The weights of the declarations that win so far, by property.
struct Winners {
    names: Vec<String>,
    weights: Vec<Weight>,
    values: Attributes,
}

/// The index of `name` in a list of distinct names.
spec fn holds_name(names: Seq<String>, name: Seq<char>) -> bool {
    exists|i: int| 0 <= i < names.len() && #[trigger] names[i]@ == name
}

impl Winners {
    spec fn describes(&self, decls: Seq<Applied>) -> bool {
        &&& self.names@.len() == self.weights@.len()
        &&& forall|i: int, j: int|
            0 <= i < j < self.names@.len() ==> #[trigger] self.names@[i]@ != #[trigger] self.names@[j]@
        &&& forall|name: Seq<char>| #[trigger]
            self.values@.contains_key(name) == winner(decls, name) is Some
        &&& forall|name: Seq<char>| #[trigger]
            self.values@.contains_key(name) ==> self.values@[name] == winner(decls, name)->0.value
        &&& forall|name: Seq<char>| #[trigger]
            winner(decls, name) is Some ==> holds_name(self.names@, name)
        &&& forall|i: int|
            0 <= i < self.names@.len() ==> winner(decls, #[trigger] self.names@[i]@) is Some && winner(
                decls,
                self.names@[i]@,
            )->0.weight == self.weights@[i]
    }

    /// Takes one more declaration into account.
    fn consider(&mut self, decl: &Declaration, weight: Weight, Ghost(decls): Ghost<Seq<Applied>>)
        requires
            old(self).describes(decls),
        ensures
            final(self).describes(
                decls.push(Applied { name: decl.name@, value: decl.value@, weight }),
            ),
    {
        let ghost more = decls.push(Applied { name: decl.name@, value: decl.value@, weight });
        let ghost was = *self;
        proof {
            assert(more.drop_last() =~= decls);
            assert(more.last() == Applied { name: decl.name@, value: decl.value@, weight });
        }
        let mut i: usize = 0;
        while i < self.names.len() && !text_eq(self.names[i].as_str(), decl.name.as_str())
            invariant
                i <= self.names.len(),
                forall|j: int| 0 <= j < i ==> #[trigger] self.names@[j]@ != decl.name@,
            ensures
                i <= self.names.len(),
                forall|j: int| 0 <= j < i ==> #[trigger] self.names@[j]@ != decl.name@,
                i < self.names.len() ==> self.names@[i as int]@ == decl.name@,
            decreases self.names.len() - i,
        {
            i = i + 1;
        }
        if i < self.names.len() {
            if later_wins(weight, self.weights[i]) {
                self.weights.set(i, weight);
                let _ = self.values.insert(decl.name.clone(), decl.value.clone());
                proof {
                    assert(winner(more, decl.name@) == Some(more.last()));
                    assert forall|name: Seq<char>| name != decl.name@ implies winner(more, name)
                        == #[trigger] winner(decls, name) by {}
                    assert forall|name: Seq<char>| #[trigger] winner(more, name)
                        is Some implies holds_name(self.names@, name) by {
                        assert(winner(decls, name) is Some);
                    }
                }
            } else {
                proof {
                    assert(winner(decls, self.names@[i as int]@) is Some);
                    assert forall|name: Seq<char>| winner(more, name) == #[trigger] winner(
                        decls,
                        name,
                    ) by {}
                    assert forall|name: Seq<char>| #[trigger] winner(more, name)
                        is Some implies holds_name(self.names@, name) by {
                        assert(winner(decls, name) is Some);
                    }
                }
            }
        } else {
            proof {
                assert(winner(decls, decl.name@) is None) by {
                    if winner(decls, decl.name@) is Some {
                        assert(holds_name(self.names@, decl.name@));
                        let j = choose|j: int|
                            0 <= j < self.names@.len() && #[trigger] self.names@[j]@ == decl.name@;
                        assert(false);
                    }
                }
            }
            self.names.push(decl.name.clone());
            self.weights.push(weight);
            let _ = self.values.insert(decl.name.clone(), decl.value.clone());
            proof {
                assert(winner(more, decl.name@) == Some(more.last()));
                assert forall|name: Seq<char>| name != decl.name@ implies winner(more, name)
                    == #[trigger] winner(decls, name) by {}
                assert forall|name: Seq<char>| #[trigger] winner(more, name)
                    is Some implies holds_name(self.names@, name) by {
                    if name == decl.name@ {
                        assert(self.names@[self.names@.len() - 1]@ == name);
                    } else {
                        assert(winner(decls, name) is Some);
                        let j = choose|j: int|
                            0 <= j < was.names@.len() && #[trigger] was.names@[j]@ == name;
                        assert(self.names@[j]@ == name);
                    }
                }
                assert forall|k: int| 0 <= k < self.names@.len() implies winner(
                    more,
                    #[trigger] self.names@[k]@,
                ) is Some && winner(more, self.names@[k]@)->0.weight == self.weights@[k] by {
                    if k < was.names@.len() {
                        assert(self.names@[k] == was.names@[k]);
                        assert(winner(decls, was.names@[k]@) is Some);
                    }
                }
            }
        }
    }
}

impl Stylesheet {
    /// Without rules.
    pub fn new() -> (res: Self)
        ensures
            res.rules@.len() == 0,
    {
        Stylesheet { rules: Vec::new() }
    }

    /// The properties of an element, given which of the rules match it. Of the
    /// declarations of a property, importance decides first, then origin,
    /// specificity and source order.
    pub fn styles_for(&self, matched: &Vec<bool>) -> (res: StyleMap)
        requires
            matched@.len() == self.rules@.len(),
        ensures
            forall|name: Seq<char>| #[trigger]
                res@.contains_key(name) == winner(applied(self.rules@, matched@), name) is Some,
            forall|name: Seq<char>| #[trigger]
                res@.contains_key(name) ==> res@[name] == winner(
                    applied(self.rules@, matched@),
                    name,
                )->0.value,
    {
        let mut best = Winners {
            names: Vec::new(),
            weights: Vec::new(),
            values: Attributes::new(),
        };
        let ghost mut decls: Seq<Applied> = Seq::empty();
        let mut i: usize = 0;
        proof {
            assert(best.describes(decls));
        }
        while i < self.rules.len()
            invariant
                i <= self.rules.len(),
                matched@.len() == self.rules@.len(),
                decls == applied(self.rules@.take(i as int), matched@.take(i as int)),
                best.describes(decls),
            decreases self.rules.len() - i,
        {
            let rule = &self.rules[i];
            proof {
                assert(self.rules@.take(i + 1).drop_last() == self.rules@.take(i as int));
                assert(matched@.take(i + 1).drop_last() == matched@.take(i as int));
            }
            if matched[i] {
                let ghost base = decls;
                let mut k: usize = 0;
                proof {
                    assert(decls =~= base + applied_of(*rule).take(0));
                }
                while k < rule.declarations.len()
                    invariant
                        k <= rule.declarations.len(),
                        decls == base + applied_of(*rule).take(k as int),
                        best.describes(decls),
                    decreases rule.declarations.len() - k,
                {
                    let decl = &rule.declarations[k];
                    let rank: u8 = if decl.important {
                        rule.origin.important_rank()
                    } else {
                        rule.origin.normal_rank()
                    };
                    let weight = Weight {
                        important: decl.important,
                        origin_rank: rank,
                        specificity: rule.selector.specificity,
                        source_order: rule.source_order,
                    };
                    best.consider(decl, weight, Ghost(decls));
                    proof {
                        let next = Applied { name: decl.name@, value: decl.value@, weight };
                        assert(applied_of(*rule)[k as int] == next);
                        assert(base + applied_of(*rule).take(k + 1) =~= decls.push(next));
                        decls = decls.push(next);
                    }
                    k = k + 1;
                }
                proof {
                    assert(applied_of(*rule).take(k as int) =~= applied_of(*rule));
                }
            }
            i = i + 1;
        }
        proof {
            assert(self.rules@.take(i as int) == self.rules@);
            assert(matched@.take(i as int) == matched@);
        }
        StyleMap { values: best.values }
    }

    /// Appends the rules of `other` behind the own ones, in source order.
    pub fn merge(&mut self, other: Stylesheet)
        ensures
            final(self).rules@ == old(self).rules@ + renumbered(
                other.rules@,
                old(self).rules@.len(),
            ),
    {
        let mut rest = other.rules;
        let ghost all = rest@;
        let ghost start = self.rules@;
        let mut reversed: Vec<Rule> = Vec::new();
        while rest.len() > 0
            invariant
                rest@.len() + reversed@.len() == all.len(),
                forall|i: int| 0 <= i < rest@.len() ==> rest@[i] == all[i],
                forall|i: int|
                    0 <= i < reversed@.len() ==> reversed@[i] == all[all.len() - 1 - i],
            decreases rest.len(),
        {
            match rest.pop() {
                Some(rule) => {
                    reversed.push(rule);
                },
                None => {},
            }
        }
        let ghost mut moved: int = 0;
        proof {
            assert(self.rules@ =~= start + renumbered(all, start.len()).take(0));
        }
        while reversed.len() > 0
            invariant
                0 <= moved <= all.len(),
                reversed@.len() == all.len() - moved,
                forall|i: int|
                    0 <= i < reversed@.len() ==> reversed@[i] == all[all.len() - 1 - i],
                self.rules@ == start + renumbered(all, start.len()).take(moved),
            decreases reversed.len(),
        {
            match reversed.pop() {
                Some(rule) => {
                    let mut rule = rule;
                    rule.source_order = self.rules.len();
                    self.rules.push(rule);
                    proof {
                        assert(renumbered(all, start.len())[moved] == rule);
                        assert(self.rules@ =~= start + renumbered(all, start.len()).take(
                            moved + 1,
                        ));
                        moved = moved + 1;
                    }
                },
                None => {},
            }
        }
        proof {
            assert(renumbered(all, start.len()).take(moved) =~= renumbered(all, start.len()));
        }
    }
}

/// Rules whose source order is their place behind the first `base` rules.
pub open spec fn renumbered(rules: Seq<Rule>, base: nat) -> Seq<Rule> {
    Seq::new(
        rules.len(),
        |i: int| Rule { source_order: (base + i) as usize, ..rules[i] },
    )
}

/// The winner of a property is one of the declarations of that property, and no
/// declaration that comes later beats it.
pub proof fn law_winner_is_not_beaten(decls: Seq<Applied>, name: Seq<char>)
    ensures
        match winner(decls, name) {
            Some(w) => exists|i: int|
                0 <= i < decls.len() && #[trigger] decls[i] == w && w.name == name && forall|j: int|
                    i < j < decls.len() && #[trigger] decls[j].name == name ==> !beats(
                        decls[j].weight,
                        w.weight,
                    ),
            None => forall|i: int| 0 <= i < decls.len() ==> #[trigger] decls[i].name != name,
        },
    decreases decls.len(),
{
    if decls.len() > 0 {
        let front = decls.drop_last();
        law_winner_is_not_beaten(front, name);
        match winner(front, name) {
            Some(w) => {
                let i = choose|i: int|
                    0 <= i < front.len() && #[trigger] front[i] == w && w.name == name
                        && forall|j: int|
                        i < j < front.len() && #[trigger] front[j].name == name ==> !beats(
                            front[j].weight,
                            w.weight,
                        );
                if winner(decls, name) == Some(decls.last()) && decls.last().name == name && beats(
                    decls.last().weight,
                    w.weight,
                ) {
                    assert(decls[decls.len() - 1] == decls.last());
                } else {
                    assert(decls[i] == w);
                    assert forall|j: int|
                        i < j < decls.len() && #[trigger] decls[j].name == name implies !beats(
                        decls[j].weight,
                        w.weight,
                    ) by {
                        if j < front.len() {
                            assert(front[j].name == name);
                        }
                    }
                }
            },
            None => {
                if decls.last().name == name {
                    assert(decls[decls.len() - 1] == decls.last());
                } else {
                    assert forall|i: int| 0 <= i < decls.len() implies #[trigger] decls[i].name
                        != name by {
                        if i < front.len() {
                            assert(front[i].name != name);
                        }
                    }
                }
            },
        }
    }
}

/// An important declaration wins over every normal one.
pub proof fn law_important_beats_normal(decls: Seq<Applied>, name: Seq<char>, i: int)
    requires
        0 <= i < decls.len(),
        decls[i].name == name,
        decls[i].weight.important,
    ensures
        winner(decls, name) matches Some(w) && w.weight.important,
    decreases decls.len(),
{
    if i < decls.len() - 1 {
        assert(decls.drop_last()[i] == decls[i]);
        law_important_beats_normal(decls.drop_last(), name, i);
    }
}

/// Among normal declarations those of authors beat those of the user agent,
/// whatever their selectors and their order; among important ones it is the
/// other way round.
pub proof fn law_origins_outweigh_selectors(
    author: Rule,
    agent: Rule,
    a: Declaration,
    b: Declaration,
)
    requires
        author.origin is Author,
        agent.origin is UserAgent,
        a.important == b.important,
    ensures
        !a.important ==> beats(weight_of(author, a), weight_of(agent, b)) && !beats(
            weight_of(agent, b),
            weight_of(author, a),
        ),
        a.important ==> beats(weight_of(agent, b), weight_of(author, a)) && !beats(
            weight_of(author, a),
            weight_of(agent, b),
        ),
{
}

} // verus!
