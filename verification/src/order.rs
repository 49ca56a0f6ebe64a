//! Keys of ordered maps.

use std::collections::BTreeMap;
use vstd::prelude::*;
use vstd::std_specs::cmp::OrdSpec;
use vstd::std_specs::iter::IteratorSpec;

verus! {

broadcast use vstd::std_specs::btree::group_btree_axioms;

/// Whether every number of the list is greater than those before it.
pub open spec fn increasing(s: Seq<usize>) -> bool {
    forall|i: int, j: int| 0 <= i < j < s.len() ==> s[i] < s[j]
}

/// Whether `s` lists the numbers of `keys` in increasing order.
pub open spec fn lists(s: Seq<usize>, keys: Set<usize>) -> bool {
    increasing(s) && s.to_set() == keys
}

/// The numbers of a set in increasing order.
pub open spec fn in_increasing_order(keys: Set<usize>) -> Seq<usize> {
    choose|s: Seq<usize>| lists(s, keys)
}

/// A set can be listed in increasing order in one way.
pub proof fn lemma_listing_unique(s: Seq<usize>, t: Seq<usize>, keys: Set<usize>)
    requires
        lists(s, keys),
        lists(t, keys),
    ensures
        s == t,
    decreases s.len(),
{
    if s.len() == 0 || t.len() == 0 {
        if s.len() > 0 {
            assert(s.to_set().contains(s[0]));
            assert(t.contains(s[0]));
        }
        if t.len() > 0 {
            assert(t.to_set().contains(t[0]));
            assert(s.contains(t[0]));
        }
        assert(s == t);
    } else {
        let a = s.last();
        let b = t.last();
        assert(s.contains(a));
        assert(t.contains(b));
        assert(s.to_set().contains(a));
        assert(t.to_set().contains(b));
        assert(t.contains(a));
        assert(s.contains(b));
        let i = choose|i: int| 0 <= i < t.len() && t[i] == a;
        let j = choose|j: int| 0 <= j < s.len() && s[j] == b;
        assert(a <= b);
        assert(b <= a);
        lemma_listing_front(s, keys);
        lemma_listing_front(t, keys);
        lemma_listing_unique(s.drop_last(), t.drop_last(), keys.remove(a));
        assert(s == s.drop_last().push(a));
        assert(t == t.drop_last().push(b));
    }
}

proof fn lemma_listing_front(s: Seq<usize>, keys: Set<usize>)
    requires
        lists(s, keys),
        s.len() > 0,
    ensures
        lists(s.drop_last(), keys.remove(s.last())),
{
    let f = s.drop_last();
    assert forall|x: usize| f.to_set().contains(x) == keys.remove(s.last()).contains(x) by {
        if f.contains(x) {
            let i = choose|i: int| 0 <= i < f.len() && f[i] == x;
            assert(s[i] == x);
            assert(s.contains(x));
            assert(s.to_set().contains(x));
            assert(s[i] < s[s.len() - 1]);
        }
        if keys.contains(x) && x != s.last() {
            assert(s.to_set().contains(x));
            assert(s.contains(x));
            let i = choose|i: int| 0 <= i < s.len() && s[i] == x;
            assert(f[i] == x);
            assert(f.contains(x));
        }
    }
    assert(f.to_set() =~= keys.remove(s.last()));
}

/// Every finite set can be listed in increasing order.
pub proof fn lemma_listing_exists(keys: Set<usize>)
    requires
        keys.finite(),
    ensures
        lists(in_increasing_order(keys), keys),
{
    let s = lemma_listing(keys);
    assert(lists(s, keys));
}

proof fn lemma_listing(keys: Set<usize>) -> (s: Seq<usize>)
    requires
        keys.finite(),
    ensures
        lists(s, keys),
    decreases keys.len(),
{
    if keys.len() == 0 {
        assert(keys =~= Set::empty());
        assert(Seq::<usize>::empty().to_set() =~= keys);
        Seq::empty()
    } else {
        let top = lemma_greatest(keys);
        let front = lemma_listing(keys.remove(top));
        let s = front.push(top);
        assert forall|x: usize| s.to_set().contains(x) == keys.contains(x) by {
            if s.contains(x) {
                let i = choose|i: int| 0 <= i < s.len() && s[i] == x;
                if i < front.len() {
                    assert(front[i] == x);
                    assert(front.to_set().contains(x));
                }
            }
            if keys.contains(x) {
                if x == top {
                    assert(s[s.len() - 1] == x);
                } else {
                    assert(front.to_set().contains(x));
                    let i = choose|i: int| 0 <= i < front.len() && front[i] == x;
                    assert(s[i] == x);
                }
            }
        }
        assert(s.to_set() =~= keys);
        assert forall|i: int, j: int| 0 <= i < j < s.len() implies s[i] < s[j] by {
            if j == front.len() {
                assert(front.to_set().contains(front[i]));
            } else {
                assert(front[i] < front[j]);
            }
        }
        s
    }
}

proof fn lemma_greatest(keys: Set<usize>) -> (top: usize)
    requires
        keys.finite(),
        keys.len() > 0,
    ensures
        keys.contains(top),
        forall|x: usize| #[trigger] keys.contains(x) ==> x <= top,
    decreases keys.len(),
{
    let a = keys.choose();
    let rest = keys.remove(a);
    if rest.len() == 0 {
        assert forall|x: usize| #[trigger] keys.contains(x) implies x <= a by {
            if x != a {
                assert(rest.contains(x));
            }
        }
        a
    } else {
        let b = lemma_greatest(rest);
        let top = if a > b {
            a
        } else {
            b
        };
        assert forall|x: usize| #[trigger] keys.contains(x) implies x <= top by {
            if x != a {
                assert(rest.contains(x));
            }
        }
        top
    }
}

broadcast proof fn lemma_increasing_refs(s: Seq<&usize>)
    ensures
        #[trigger] vstd::std_specs::btree::increasing_seq(s) ==> increasing(s.unref()),
{
    reveal(vstd::laws_eq::obeys_eq_spec_properties);
    reveal(vstd::laws_cmp::obeys_cmp_partial_ord);
    reveal(vstd::laws_cmp::obeys_cmp_ord);
    reveal(vstd::laws_cmp::obeys_partial_cmp_spec_properties);
    assert(vstd::laws_cmp::obeys_cmp::<usize>());
    assert(vstd::laws_cmp::obeys_cmp::<&usize>());
    if vstd::std_specs::btree::increasing_seq(s) {
        assert forall|i: int, j: int| 0 <= i < j < s.len() implies s.unref()[i] < s.unref()[j] by {
            assert(OrdSpec::cmp_spec(&s[i], &s[j]) is Less);
        }
    }
}

/// The keys of a map in increasing order.
pub fn sorted_keys<V>(m: &BTreeMap<usize, V>) -> (res: Vec<usize>)
    ensures
        res@ == in_increasing_order(m@.dom()),
        lists(res@, m@.dom()),
{
    broadcast use lemma_increasing_refs;

    let mut res: Vec<usize> = Vec::new();
    for k in it: m.keys()
        invariant
            res@ == it.seq().unref().take(it.index()),
            it.seq().unref().to_set() == m@.dom(),
            increasing(it.seq().unref()),
    {
        res.push(*k);
    }
    proof {
        let keys = m.keys().remaining().unref();
        assert(res@ == keys);
        assert(lists(res@, m@.dom()));
        lemma_listing_unique(res@, in_increasing_order(m@.dom()), m@.dom());
    }
    res
}

} // verus!
