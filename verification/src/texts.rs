//! What the operations on text give.

use crate::text::{before, decimal, has_prefix, has_substring, has_suffix, is_space, joined,
    lemma_skip_spaces, lemma_word_len, lowercase, occurs_at, parts, same_ignoring_case, skip_spaces,
    trimmed, trimmed_end, word_len, words};
use vstd::prelude::*;

verus! {

/// Splitting takes the separators out and nothing else: no part holds one, and
/// joining the parts with it gives the text back.
pub proof fn law_joining_undoes_splitting(s: Seq<char>, c: char)
    ensures
        parts(s, c).len() > 0,
        joined(parts(s, c), seq![c]) == s,
        forall|i: int| 0 <= i < parts(s, c).len() ==> !(#[trigger] parts(s, c)[i]).contains(c),
    decreases s.len(),
{
    let all = parts(s, c);
    if s.len() == 0 {
        assert(joined(all, seq![c]) =~= s);
    } else {
        let front = parts(s.drop_last(), c);
        law_joining_undoes_splitting(s.drop_last(), c);
        if s.last() == c {
            assert(all.drop_last() =~= front);
            assert(joined(all, seq![c]) =~= s);
        } else {
            assert(all.drop_last() =~= front.drop_last());
            assert(all.last() == front.last().push(s.last()));
            assert(!front[front.len() - 1].contains(c));
            assert(!all.last().contains(c)) by {
                if all.last().contains(c) {
                    let j = choose|j: int| 0 <= j < all.last().len() && all.last()[j] == c;
                    assert(front.last()[j] == c);
                }
            }
            assert forall|i: int| 0 <= i < all.len() implies !(#[trigger] all[i]).contains(c) by {
                if i < all.len() - 1 {
                    assert(all[i] == front[i]);
                }
            }
            assert(joined(all, seq![c]) =~= joined(front, seq![c]).push(s.last()));
            assert(joined(all, seq![c]) =~= s);
        }
    }
}

/// Whether a text is white space throughout.
pub open spec fn all_space(s: Seq<char>) -> bool {
    forall|i: int| 0 <= i < s.len() ==> is_space(#[trigger] s[i])
}

/// Trimming takes the white space off both ends and nothing else: what it took
/// off is white space, and what is left begins and ends with something else.
pub proof fn law_trimming_takes_off_outer_space(s: Seq<char>) -> (ends: (Seq<char>, Seq<char>))
    ensures
        all_space(ends.0),
        all_space(ends.1),
        s == ends.0 + trimmed(s) + ends.1,
        trimmed(s).len() > 0 ==> !is_space(trimmed(s)[0]) && !is_space(trimmed(s).last()),
{
    let t = skip_spaces(s);
    let a = lemma_skipped(s);
    let b = lemma_trimmed_end(t);
    assert(s =~= a + trimmed(s) + b);
    if trimmed(s).len() > 0 {
        assert(trimmed(s)[0] == t[0]);
    }
    (a, b)
}

proof fn lemma_skipped(s: Seq<char>) -> (a: Seq<char>)
    ensures
        all_space(a),
        s == a + skip_spaces(s),
        skip_spaces(s).len() > 0 ==> !is_space(skip_spaces(s)[0]),
    decreases s.len(),
{
    if s.len() > 0 && is_space(s[0]) {
        let a = lemma_skipped(s.drop_first());
        let all = seq![s[0]] + a;
        assert(s =~= seq![s[0]] + s.drop_first());
        assert(skip_spaces(s) == skip_spaces(s.drop_first()));
        assert(s =~= all + skip_spaces(s));
        all
    } else {
        assert(s =~= Seq::<char>::empty() + s);
        Seq::empty()
    }
}

proof fn lemma_trimmed_end(s: Seq<char>) -> (b: Seq<char>)
    ensures
        all_space(b),
        s == trimmed_end(s) + b,
        trimmed_end(s).len() > 0 ==> !is_space(trimmed_end(s).last()),
    decreases s.len(),
{
    if s.len() > 0 && is_space(s.last()) {
        let b = lemma_trimmed_end(s.drop_last());
        assert(s =~= s.drop_last().push(s.last()));
        assert(trimmed_end(s) == trimmed_end(s.drop_last()));
        assert(s =~= trimmed_end(s) + b.push(s.last()));
        b.push(s.last())
    } else {
        assert(s =~= s + Seq::<char>::empty());
        Seq::empty()
    }
}

/// Whether what stands from `i` to `j` is a word: it is not empty, holds no white
/// space, and goes on to neither side.
pub open spec fn is_word_at(s: Seq<char>, i: int, j: int) -> bool {
    &&& 0 <= i < j <= s.len()
    &&& forall|k: int| i <= k < j ==> !is_space(#[trigger] s[k])
    &&& i > 0 ==> is_space(s[i - 1])
    &&& j < s.len() ==> is_space(s[j])
}

/// The words of a text are the runs without white space in it, and each such run
/// is one of them.
pub proof fn law_words_are_the_runs_between_space(s: Seq<char>, w: Seq<char>)
    ensures
        words(s).contains(w) <==> exists|i: int, j: int| #[trigger]
            is_word_at(s, i, j) && s.subrange(i, j) == w,
{
    if words(s).contains(w) {
        let (i, j) = lemma_word_is_run(s, w);
        assert(is_word_at(s, i, j));
    }
    if exists|i: int, j: int| #[trigger] is_word_at(s, i, j) && s.subrange(i, j) == w {
        let (i, j) = choose|i: int, j: int| #[trigger]
            is_word_at(s, i, j) && s.subrange(i, j) == w;
        lemma_run_is_word(s, i, j);
    }
}

proof fn lemma_word_is_run(s: Seq<char>, w: Seq<char>) -> (at: (int, int))
    requires
        words(s).contains(w),
    ensures
        is_word_at(s, at.0, at.1),
        s.subrange(at.0, at.1) == w,
    decreases s.len(),
{
    let t = skip_spaces(s);
    lemma_skip_spaces(s);
    let a = lemma_skipped(s);
    let off = a.len() as int;
    lemma_word_len(t);
    let n = word_len(t) as int;
    let rest = t.skip(n);
    let all = words(s);
    let x = choose|x: int| 0 <= x < all.len() && all[x] == w;
    assert(all == seq![t.take(n)] + words(rest));
    assert(t =~= s.skip(off));
    if x == 0 {
        assert(s.subrange(off, off + n) =~= w);
        assert forall|k: int| off <= k < off + n implies !is_space(#[trigger] s[k]) by {
            assert(s[k] == t[k - off]);
        }
        if off > 0 {
            assert(is_space(a[off - 1]));
            assert(s[off - 1] == a[off - 1]);
        }
        if off + n < s.len() {
            assert(s[off + n] == t[n]);
        }
        (off, off + n)
    } else {
        assert(words(rest)[x - 1] == w);
        let (i, j) = lemma_word_is_run(rest, w);
        let base = off + n;
        assert(rest =~= s.skip(base));
        lemma_shifted_word(s, rest, base, i, j);
        assert(s.subrange(base + i, base + j) =~= w);
        (base + i, base + j)
    }
}

proof fn lemma_run_is_word(s: Seq<char>, i: int, j: int)
    requires
        is_word_at(s, i, j),
    ensures
        words(s).contains(s.subrange(i, j)),
    decreases s.len(),
{
    let w = s.subrange(i, j);
    let t = skip_spaces(s);
    lemma_skip_spaces(s);
    let a = lemma_skipped(s);
    let off = a.len() as int;
    assert(!is_space(s[i]));
    if i < off {
        assert(is_space(a[i]));
        assert(s[i] == a[i]);
    }
    assert(t =~= s.skip(off));
    lemma_word_len(t);
    let n = word_len(t) as int;
    let rest = t.skip(n);
    let base = off + n;
    let all = words(s);
    assert(all == seq![t.take(n)] + words(rest));
    assert(rest =~= s.skip(base));
    if i < base {
        if i > off {
            assert(s[i - 1] == t[i - 1 - off]);
        }
        if j > base {
            assert(s[base] == t[n]);
            assert(!is_space(s[base]));
        }
        if j < base {
            assert(s[j] == t[j - off]);
        }
        assert(w =~= t.take(n));
        assert(all[0] == w);
    } else {
        assert(is_word_at(rest, i - base, j - base)) by {
            assert forall|k: int| i - base <= k < j - base implies !is_space(
                #[trigger] rest[k],
            ) by {
                assert(!is_space(s[base + k]));
            }
            if i > base {
                assert(rest[i - base - 1] == s[i - 1]);
            }
            if j < s.len() {
                assert(rest[j - base] == s[j]);
            }
        }
        assert(rest.subrange(i - base, j - base) =~= w);
        lemma_run_is_word(rest, i - base, j - base);
        let x = choose|x: int| 0 <= x < words(rest).len() && words(rest)[x] == w;
        assert(all[x + 1] == w);
    }
}

proof fn lemma_shifted_word(s: Seq<char>, rest: Seq<char>, base: int, i: int, j: int)
    requires
        0 <= base <= s.len(),
        rest == s.skip(base),
        rest.len() > 0 ==> is_space(rest[0]),
        is_word_at(rest, i, j),
    ensures
        is_word_at(s, base + i, base + j),
{
    assert forall|k: int| base + i <= k < base + j implies !is_space(#[trigger] s[k]) by {
        assert(rest[k - base] == s[k]);
    }
    if i == 0 {
        assert(!is_space(rest[0]));
    } else {
        assert(rest[i - 1] == s[base + i - 1]);
    }
    if j < rest.len() {
        assert(rest[j] == s[base + j]);
    }
}

/// The words stand in the order of the text: one after the other, they are the
/// text without its white space.
pub proof fn law_words_keep_the_order_of_the_text(s: Seq<char>)
    ensures
        words(s).flatten() == s.filter(|c: char| !is_space(c)),
    decreases s.len(),
{
    let q = |c: char| !is_space(c);
    let t = skip_spaces(s);
    lemma_skip_spaces(s);
    let a = lemma_skipped(s);
    Seq::filter_distributes_over_add(a, t, q);
    lemma_filtered(a, q, false);
    if t.len() == 0 {
        assert(s =~= a);
        assert(words(s).flatten() =~= Seq::<char>::empty());
    } else {
        lemma_word_len(t);
        let n = word_len(t) as int;
        law_words_keep_the_order_of_the_text(t.skip(n));
        assert(t =~= t.take(n) + t.skip(n));
        Seq::filter_distributes_over_add(t.take(n), t.skip(n), q);
        lemma_filtered(t.take(n), q, true);
        let all = words(s);
        assert(all.drop_first() =~= words(t.skip(n)));
        assert(all.first() == t.take(n));
        assert(all.flatten() == all.first() + all.drop_first().flatten());
        assert(s.filter(q) =~= all.flatten());
    }
}

proof fn lemma_filtered(s: Seq<char>, q: spec_fn(char) -> bool, keep: bool)
    requires
        forall|k: int| 0 <= k < s.len() ==> q(#[trigger] s[k]) == keep,
    ensures
        s.filter(q) == (if keep {
            s
        } else {
            Seq::empty()
        }),
    decreases s.len(),
{
    reveal(Seq::filter);
    if s.len() > 0 {
        let front = s.drop_last();
        assert forall|k: int| 0 <= k < front.len() implies q(#[trigger] front[k]) == keep by {
            assert(front[k] == s[k]);
        }
        lemma_filtered(front, q, keep);
        assert(q(s[s.len() - 1]) == keep);
        assert(s =~= front.push(s.last()));
    }
}

/// The number that digits stand for.
pub open spec fn number_of(s: Seq<char>) -> int
    decreases s.len(),
{
    if s.len() == 0 {
        0
    } else {
        10 * number_of(s.drop_last()) + (s.last() as u32 - '0' as u32)
    }
}

/// A number in decimal is written in digits, without a needless zero in front, and
/// reads as that number.
pub proof fn law_decimals_read_as_the_number(n: nat)
    ensures
        number_of(decimal(n)) == n,
        forall|i: int| 0 <= i < decimal(n).len() ==> '0' <= #[trigger] decimal(n)[i] <= '9',
        decimal(n).len() > 0,
        n > 0 ==> decimal(n)[0] != '0',
    decreases n,
{
    reveal_with_fuel(number_of, 2);
    let s = decimal(n);
    if n < 10 {
        assert(s.drop_last() =~= Seq::<char>::empty());
    } else {
        law_decimals_read_as_the_number(n / 10);
        assert(s.drop_last() =~= decimal(n / 10));
    }
}

/// A text comes before another if it is the beginning of it, or has the smaller
/// character where the two first differ; and only then.
pub proof fn law_order_is_by_first_difference(a: Seq<char>, b: Seq<char>)
    ensures
        before(a, b) <==> exists|k: int|
            0 <= k <= a.len() && k < b.len() && #[trigger] a.take(k) == b.take(k) && (k == a.len()
                || a[k] < b[k]),
    decreases a.len(),
{
    if b.len() > 0 && a.len() > 0 {
        let (c, e) = (a.drop_first(), b.drop_first());
        law_order_is_by_first_difference(c, e);
        if before(a, b) {
            if a[0] < b[0] {
                assert(a.take(0) =~= b.take(0));
            } else {
                let k = choose|k: int|
                    0 <= k <= c.len() && k < e.len() && #[trigger] c.take(k) == e.take(k) && (k
                        == c.len() || c[k] < e[k]);
                assert(a.take(k + 1) =~= seq![a[0]] + c.take(k));
                assert(b.take(k + 1) =~= seq![b[0]] + e.take(k));
            }
        }
        if exists|k: int|
            0 <= k <= a.len() && k < b.len() && #[trigger] a.take(k) == b.take(k) && (k == a.len()
                || a[k] < b[k]) {
            let k = choose|k: int|
                0 <= k <= a.len() && k < b.len() && #[trigger] a.take(k) == b.take(k) && (k
                    == a.len() || a[k] < b[k]);
            if k > 0 {
                assert(a.take(k)[0] == b.take(k)[0]);
                assert(c.take(k - 1) =~= a.take(k).drop_first());
                assert(e.take(k - 1) =~= b.take(k).drop_first());
            }
        }
    } else if b.len() > 0 {
        assert(a.take(0) =~= b.take(0));
    }
}

/// A text begins with another exactly if it is that text with something behind it.
pub proof fn law_beginnings_have_the_rest_behind(s: Seq<char>, p: Seq<char>, b: Seq<char>)
    ensures
        has_prefix(p + b, p),
        has_prefix(s, p) ==> s == p + s.skip(p.len() as int),
{
    assert((p + b).subrange(0, p.len() as int) =~= p);
    if has_prefix(s, p) {
        lemma_cut(s, 0, p.len() as int);
        assert(s =~= p + s.skip(p.len() as int));
    }
}

/// A text ends with another exactly if it is that text with something before it.
pub proof fn law_endings_have_the_rest_before(s: Seq<char>, p: Seq<char>, a: Seq<char>)
    ensures
        has_suffix(a + p, p),
        has_suffix(s, p) ==> s == s.take(s.len() - p.len()) + p,
{
    assert((a + p).subrange(a.len() as int, (a + p).len() as int) =~= p);
    if has_suffix(s, p) {
        lemma_cut(s, s.len() - p.len(), s.len() as int);
        assert(s.skip(s.len() as int) =~= Seq::<char>::empty());
        assert(s =~= s.take(s.len() - p.len()) + p);
    }
}

/// A text holds another exactly if it is that text between two others.
pub proof fn law_held_texts_stand_between_others(
    s: Seq<char>,
    a: Seq<char>,
    p: Seq<char>,
    b: Seq<char>,
) -> (at: int)
    ensures
        has_substring(a + p + b, p),
        has_substring(s, p) ==> 0 <= at <= s.len() - p.len() && s == s.take(at) + p + s.skip(
            at + p.len(),
        ),
{
    let all = a + p + b;
    assert(all.subrange(a.len() as int, (a.len() + p.len()) as int) =~= p);
    assert(occurs_at(all, p, a.len() as int));
    let at = choose|at: int| #[trigger] occurs_at(s, p, at);
    if has_substring(s, p) {
        lemma_cut(s, at, at + p.len());
    }
    at
}

proof fn lemma_cut(s: Seq<char>, i: int, j: int)
    requires
        0 <= i <= j <= s.len(),
    ensures
        s == s.take(i) + s.subrange(i, j) + s.skip(j),
{
    assert(s =~= s.take(i) + s.subrange(i, j) + s.skip(j));
}

/// Two texts are the same up to case exactly if they are equally long and differ
/// nowhere but in the case of an ASCII letter.
pub proof fn law_case_is_all_that_may_differ(a: Seq<char>, b: Seq<char>)
    ensures
        same_ignoring_case(a, b) <==> a.len() == b.len() && forall|i: int|
            #![trigger a[i]]
            0 <= i < a.len() ==> a[i] == b[i] || ('A' <= a[i] <= 'Z' && b[i] as u32 == a[i] as u32
                + 32) || ('A' <= b[i] <= 'Z' && a[i] as u32 == b[i] as u32 + 32),
{
    let (l, m) = (lowercase(a), lowercase(b));
    if l == m {
        assert(l.len() == a.len() && m.len() == b.len());
        assert forall|i: int| 0 <= i < a.len() implies a[i] == b[i] || ('A' <= a[i] <= 'Z' && b[i]
            as u32 == a[i] as u32 + 32) || ('A' <= b[i] <= 'Z' && a[i] as u32 == b[i] as u32
            + 32) by {
            assert(l[i] == m[i]);
        }
    }
    if a.len() == b.len() && forall|i: int|
        #![trigger a[i]]
        0 <= i < a.len() ==> a[i] == b[i] || ('A' <= a[i] <= 'Z' && b[i] as u32 == a[i] as u32 + 32)
            || ('A' <= b[i] <= 'Z' && a[i] as u32 == b[i] as u32 + 32) {
        assert forall|i: int| 0 <= i < a.len() implies l[i] == m[i] by {
            assert(a[i] == a[i]);
        }
        assert(l =~= m);
    }
}

} // verus!
