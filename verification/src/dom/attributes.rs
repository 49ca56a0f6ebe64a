//! Element attributes: a map from names to values, kept in name order.

use crate::text::{before, is_before, lemma_before_irreflexive, lemma_before_total,
    lemma_before_transitive, text_eq};
use vstd::prelude::*;

verus! {

/// An attribute name with its value.
pub type Pair = (Seq<char>, Seq<char>);

/// Names strictly ascending in dictionary order.
pub open spec fn ordered(p: Seq<Pair>) -> bool {
    forall|i: int, j: int| 0 <= i < j < p.len() ==> before(#[trigger] p[i].0, #[trigger] p[j].0)
}

/// The map that a sequence of pairs describes; a later pair wins.
pub open spec fn to_map(p: Seq<Pair>) -> Map<Seq<char>, Seq<char>>
    decreases p.len(),
{
    if p.len() == 0 {
        Map::empty()
    } else {
        to_map(p.drop_last()).insert(p.last().0, p.last().1)
    }
}

/// The pairs of `m` in name order.
pub open spec fn in_order(m: Map<Seq<char>, Seq<char>>) -> Seq<Pair> {
    choose|p: Seq<Pair>| ordered(p) && #[trigger] to_map(p) == m
}

/// The attributes of one element.
#[derive(Debug)]
pub struct Attributes {
    entries: Vec<(String, String)>,
}

proof fn lemma_to_map(p: Seq<Pair>)
    ensures
        forall|k: Seq<char>| #[trigger]
            to_map(p).contains_key(k) <==> exists|i: int| 0 <= i < p.len() && p[i].0 == k,
        ordered(p) ==> forall|i: int|
            0 <= i < p.len() ==> #[trigger] to_map(p).contains_key(p[i].0) && to_map(p)[p[i].0]
                == p[i].1,
    decreases p.len(),
{
    if p.len() > 0 {
        let q = p.drop_last();
        lemma_to_map(q);
        assert forall|k: Seq<char>| #[trigger] to_map(p).contains_key(k) <==> exists|i: int|
            0 <= i < p.len() && p[i].0 == k by {
            if to_map(q).contains_key(k) {
                let i = choose|i: int| 0 <= i < q.len() && q[i].0 == k;
                assert(p[i].0 == k);
            }
            if k == p.last().0 {
                assert(p[p.len() - 1].0 == k);
            }
            if exists|i: int| 0 <= i < p.len() && p[i].0 == k {
                let i = choose|i: int| 0 <= i < p.len() && p[i].0 == k;
                if i < p.len() - 1 {
                    assert(q[i].0 == k);
                }
            }
        }
        if ordered(p) {
            assert(ordered(q));
            assert forall|i: int| 0 <= i < p.len() implies #[trigger] to_map(p).contains_key(
                p[i].0,
            ) && to_map(p)[p[i].0] == p[i].1 by {
                if i < p.len() - 1 {
                    lemma_before_irreflexive(p[i].0);
                    assert(before(p[i].0, p[p.len() - 1].0));
                    assert(q[i] == p[i]);
                    assert(to_map(q).contains_key(q[i].0));
                }
            }
        }
    }
}

/// The last pair of a listing in name order is the only one with its name.
proof fn lemma_front(p: Seq<Pair>)
    requires
        ordered(p),
        p.len() > 0,
    ensures
        ordered(p.drop_last()),
        to_map(p.drop_last()) == to_map(p).remove(p.last().0),
        to_map(p).contains_key(p.last().0),
        to_map(p)[p.last().0] == p.last().1,
{
    let front = p.drop_last();
    let k = p.last().0;
    lemma_to_map(front);
    assert(!to_map(front).contains_key(k)) by {
        if to_map(front).contains_key(k) {
            let x = choose|x: int| 0 <= x < front.len() && front[x].0 == k;
            assert(before(p[x].0, p[p.len() - 1].0));
            lemma_before_irreflexive(k);
        }
    }
    assert(to_map(front) =~= to_map(p).remove(k));
}

/// Whatever name a listing in name order holds, its last one is that name or
/// comes after it.
proof fn lemma_last_is_greatest(p: Seq<Pair>, k: Seq<char>)
    requires
        ordered(p),
        to_map(p).contains_key(k),
    ensures
        p.len() > 0,
        k == p.last().0 || before(k, p.last().0),
{
    lemma_to_map(p);
    let i = choose|i: int| 0 <= i < p.len() && p[i].0 == k;
    if i < p.len() - 1 {
        assert(before(p[i].0, p[p.len() - 1].0));
    }
}

/// A map has at most one listing in name order.
pub proof fn lemma_ordered_unique(p: Seq<Pair>, q: Seq<Pair>)
    requires
        ordered(p),
        ordered(q),
        to_map(p) == to_map(q),
    ensures
        p == q,
    decreases p.len(),
{
    if p.len() == 0 {
        if q.len() > 0 {
            lemma_front(q);
        }
        assert(p == q);
    } else {
        let a = p.last().0;
        lemma_front(p);
        lemma_last_is_greatest(q, a);
        let b = q.last().0;
        lemma_front(q);
        lemma_last_is_greatest(p, b);
        if a != b {
            lemma_before_transitive(a, b, a);
            lemma_before_irreflexive(a);
        }
        lemma_ordered_unique(p.drop_last(), q.drop_last());
        assert(p == p.drop_last().push(p.last()));
        assert(q == q.drop_last().push(q.last()));
    }
}

impl View for Attributes {
    type V = Map<Seq<char>, Seq<char>>;

    closed spec fn view(&self) -> Map<Seq<char>, Seq<char>> {
        to_map(self.pairs())
    }
}

impl Clone for Attributes {
    fn clone(&self) -> (res: Self)
        ensures
            res@ == self@,
    {
        proof {
            use_type_invariant(self);
        }
        Attributes { entries: self.clone_entries() }
    }
}

impl Attributes {
    closed spec fn pairs(&self) -> Seq<Pair> {
        self.entries@.map_values(|e: (String, String)| (e.0@, e.1@))
    }

    #[verifier::type_invariant]
    spec fn in_name_order(self) -> bool {
        ordered(self.pairs())
    }

    /// No attributes.
    pub fn new() -> (res: Self)
        ensures
            res@ == Map::<Seq<char>, Seq<char>>::empty(),
    {
        Attributes { entries: Vec::new() }
    }

    /// How many names come before `name`.
    fn rank(&self, name: &str) -> (at: usize)
        ensures
            at <= self.entries.len(),
            forall|i: int| 0 <= i < at ==> before(#[trigger] self.pairs()[i].0, name@),
            forall|i: int|
                at <= i < self.entries.len() ==> !before(#[trigger] self.pairs()[i].0, name@),
            self@.contains_key(name@) <==> (at < self.entries.len() && self.pairs()[at as int].0
                == name@),
    {
        proof {
            use_type_invariant(self);
        }
        let mut at: usize = 0;
        while at < self.entries.len() && is_before(self.entries[at].0.as_str(), name)
            invariant
                at <= self.entries.len(),
                forall|i: int| 0 <= i < at ==> before(#[trigger] self.pairs()[i].0, name@),
            ensures
                at <= self.entries.len(),
                forall|i: int| 0 <= i < at ==> before(#[trigger] self.pairs()[i].0, name@),
                at < self.entries.len() ==> !before(self.pairs()[at as int].0, name@),
            decreases self.entries.len() - at,
        {
            at = at + 1;
        }
        proof {
            let p = self.pairs();
            assert forall|i: int| at <= i < self.entries.len() implies !before(
                #[trigger] p[i].0,
                name@,
            ) by {
                if i > at && before(p[i].0, name@) {
                    lemma_before_transitive(p[at as int].0, p[i].0, name@);
                }
            }
            lemma_to_map(p);
            if self@.contains_key(name@) {
                let i = choose|i: int| 0 <= i < p.len() && p[i].0 == name@;
                lemma_before_irreflexive(name@);
                if i > at {
                    assert(before(p[at as int].0, p[i].0));
                }
            }
        }
        at
    }

    /// The value of the attribute `name`.
    pub fn get(&self, name: &str) -> (res: Option<&String>)
        ensures
            match res {
                Some(v) => self@.contains_key(name@) && v@ == self@[name@],
                None => !self@.contains_key(name@),
            },
    {
        let at: usize = self.rank(name);
        if at < self.entries.len() && text_eq(self.entries[at].0.as_str(), name) {
            proof {
                use_type_invariant(self);
                lemma_to_map(self.pairs());
                assert(self.pairs()[at as int].0 == name@);
            }
            Some(&self.entries[at].1)
        } else {
            None
        }
    }

    /// Whether the element carries the attribute `name`.
    pub fn contains_key(&self, name: &str) -> (res: bool)
        ensures
            res == self@.contains_key(name@),
    {
        self.get(name).is_some()
    }

    /// How many attributes there are.
    pub fn len(&self) -> (res: usize)
        ensures
            res == in_order(self@).len(),
    {
        proof {
            use_type_invariant(self);
            self.lemma_pairs();
        }
        self.entries.len()
    }

    proof fn lemma_pairs(&self)
        requires
            ordered(self.pairs()),
        ensures
            in_order(self@) == self.pairs(),
    {
        let p = in_order(self@);
        assert(ordered(self.pairs()) && to_map(self.pairs()) == self@);
        lemma_ordered_unique(p, self.pairs());
    }

    /// Sets `name` to `value`; the value that it had before.
    pub fn insert(&mut self, name: String, value: String) -> (prev: Option<String>)
        ensures
            final(self)@ == old(self)@.insert(name@, value@),
            match prev {
                Some(v) => old(self)@.contains_key(name@) && v@ == old(self)@[name@],
                None => !old(self)@.contains_key(name@),
            },
    {
        let at: usize = self.rank(name.as_str());
        let ghost before_pairs = self.pairs();
        proof {
            use_type_invariant(&*self);
            lemma_to_map(before_pairs);
        }
        let mut entries: Vec<(String, String)> = Vec::new();
        core::mem::swap(&mut entries, &mut self.entries);
        let mut prev: Option<String> = None;
        if at < entries.len() && text_eq(entries[at].0.as_str(), name.as_str()) {
            let old_entry = entries.remove(at);
            prev = Some(old_entry.1);
        }
        let ghost kept = entries@.map_values(|e: (String, String)| (e.0@, e.1@));
        let ghost pair: Pair = (name@, value@);
        entries.insert(at, (name, value));
        let ghost after = entries@.map_values(|e: (String, String)| (e.0@, e.1@));
        proof {
            assert(after == kept.insert(at as int, pair));
            assert(after[at as int] == pair);
            assert forall|i: int, j: int| 0 <= i < j < after.len() implies before(
                #[trigger] after[i].0,
                #[trigger] after[j].0,
            ) by {
                let gap: int = if prev is Some {
                    0
                } else {
                    1
                };
                if i > at {
                    assert(after[i] == before_pairs[i - gap]);
                    assert(after[j] == before_pairs[j - gap]);
                    assert(before(before_pairs[i - gap].0, before_pairs[j - gap].0));
                } else if i < at {
                    assert(after[i] == before_pairs[i]);
                    assert(before(before_pairs[i].0, pair.0));
                    if j > at {
                        assert(after[j] == before_pairs[j - gap]);
                        assert(before(before_pairs[i].0, before_pairs[j - gap].0));
                    } else if j < at {
                        assert(after[j] == before_pairs[j]);
                    }
                } else {
                    assert(after[j] == before_pairs[j - gap]);
                    if prev is Some {
                        assert(before_pairs[at as int].0 == pair.0);
                        assert(before(before_pairs[at as int].0, before_pairs[j].0));
                    } else {
                        lemma_before_total(before_pairs[j - 1].0, pair.0);
                        assert(!before(before_pairs[j - 1].0, pair.0));
                        assert(before_pairs[j - 1].0 != pair.0) by {
                            assert(to_map(before_pairs).contains_key(before_pairs[j - 1].0));
                        }
                    }
                }
            }
            lemma_to_map(after);
            let m = to_map(before_pairs).insert(pair.0, pair.1);
            assert(after[at as int] == pair);
            assert forall|k: Seq<char>| #[trigger] to_map(after).contains_key(k)
                == m.contains_key(k) && (m.contains_key(k) ==> to_map(after)[k] == m[k]) by {
                if to_map(after).contains_key(k) {
                    let i = choose|i: int| 0 <= i < after.len() && after[i].0 == k;
                    assert(to_map(after).contains_key(after[i].0));
                    if i != at {
                        let o = if i < at || prev is Some {
                            i
                        } else {
                            i - 1
                        };
                        assert(after[i] == before_pairs[o]);
                        assert(to_map(before_pairs).contains_key(before_pairs[o].0));
                        lemma_before_irreflexive(k);
                        if i < at {
                            assert(before(after[i].0, after[at as int].0));
                        } else {
                            assert(before(after[at as int].0, after[i].0));
                        }
                    }
                }
                if m.contains_key(k) && k != pair.0 {
                    let o = choose|o: int|
                        0 <= o < before_pairs.len() && before_pairs[o].0 == k;
                    let i = if o < at || prev is Some {
                        o
                    } else {
                        o + 1
                    };
                    assert(after[i] == before_pairs[o]);
                    assert(after[i].0 == k);
                }
                if k == pair.0 {
                    assert(to_map(after).contains_key(after[at as int].0));
                }
            }
            assert(to_map(after) =~= m);
        }
        core::mem::swap(&mut entries, &mut self.entries);
        prev
    }

    /// Removes `name`; the value that it had.
    pub fn remove(&mut self, name: &str) -> (prev: Option<String>)
        ensures
            final(self)@ == old(self)@.remove(name@),
            match prev {
                Some(v) => old(self)@.contains_key(name@) && v@ == old(self)@[name@],
                None => !old(self)@.contains_key(name@),
            },
    {
        let at: usize = self.rank(name);
        let ghost before_pairs = self.pairs();
        proof {
            use_type_invariant(&*self);
            lemma_to_map(before_pairs);
        }
        if !(at < self.entries.len() && text_eq(self.entries[at].0.as_str(), name)) {
            assert(self@.remove(name@) =~= self@);
            return None;
        }
        let mut entries: Vec<(String, String)> = Vec::new();
        core::mem::swap(&mut entries, &mut self.entries);
        let old_entry = entries.remove(at);
        let ghost after = entries@.map_values(|e: (String, String)| (e.0@, e.1@));
        proof {
            assert(after == before_pairs.remove(at as int));
            assert(before_pairs[at as int].0 == name@);
            assert(ordered(after));
            lemma_to_map(after);
            let m = to_map(before_pairs).remove(name@);
            assert forall|k: Seq<char>| #[trigger] to_map(after).contains_key(k)
                == m.contains_key(k) && (m.contains_key(k) ==> to_map(after)[k] == m[k]) by {
                if to_map(after).contains_key(k) {
                    let i = choose|i: int| 0 <= i < after.len() && after[i].0 == k;
                    assert(to_map(after).contains_key(after[i].0));
                    let o = if i < at {
                        i
                    } else {
                        i + 1
                    };
                    assert(after[i] == before_pairs[o]);
                    assert(to_map(before_pairs).contains_key(before_pairs[o].0));
                    lemma_before_irreflexive(k);
                    if o < at {
                        assert(before(before_pairs[o].0, before_pairs[at as int].0));
                    } else {
                        assert(before(before_pairs[at as int].0, before_pairs[o].0));
                    }
                }
                if m.contains_key(k) {
                    let o = choose|o: int|
                        0 <= o < before_pairs.len() && before_pairs[o].0 == k;
                    let i = if o < at {
                        o
                    } else {
                        o - 1
                    };
                    assert(after[i] == before_pairs[o]);
                    assert(after[i].0 == k);
                }
            }
            assert(to_map(after) =~= m);
        }
        core::mem::swap(&mut entries, &mut self.entries);
        Some(old_entry.1)
    }

    /// All attributes in name order.
    pub fn entries(&self) -> (res: Vec<(String, String)>)
        ensures
            res@.map_values(|e: (String, String)| (e.0@, e.1@)) == in_order(self@),
    {
        proof {
            use_type_invariant(self);
            self.lemma_pairs();
        }
        self.clone_entries()
    }

    fn clone_entries(&self) -> (entries: Vec<(String, String)>)
        ensures
            entries@.map_values(|e: (String, String)| (e.0@, e.1@)) == self.pairs(),
    {
        let mut entries: Vec<(String, String)> = Vec::new();
        let mut i: usize = 0;
        while i < self.entries.len()
            invariant
                i <= self.entries.len(),
                entries@.map_values(|e: (String, String)| (e.0@, e.1@)) == self.pairs().take(
                    i as int,
                ),
            decreases self.entries.len() - i,
        {
            let ghost so_far = entries@.map_values(|e: (String, String)| (e.0@, e.1@));
            entries.push((self.entries[i].0.clone(), self.entries[i].1.clone()));
            assert(entries@.map_values(|e: (String, String)| (e.0@, e.1@)) == so_far.push(
                self.pairs()[i as int],
            ));
            i = i + 1;
        }
        assert(self.pairs().take(i as int) == self.pairs());
        entries
    }
}

} // verus!
