//! Character-level text helpers.
//!
//! Strings are modelled by their sequence of characters. ASCII case folding,
//! white-space splitting and ordering follow the definitions of the standard
//! library, stated here as functions on such sequences.

use vstd::prelude::*;

verus! {

/// `String::push` appends one character.
pub assume_specification[ String::push ](s: &mut String, c: char)
    ensures
        final(s)@ == old(s)@.push(c),
;

/// `String::push_str` appends the characters of `t`.
pub assume_specification[ String::push_str ](s: &mut String, t: &str)
    ensures
        final(s)@ == old(s)@ + t@,
;

/// `str` equality compares the characters of both slices.
pub assume_specification[ <str as PartialEq>::eq ](a: &str, b: &str) -> (res: bool)
    ensures
        res == (a@ == b@),
;

/// Whether `c` is one of the letters `A` to `Z`.
pub open spec fn is_upper(c: char) -> bool {
    'A' <= c <= 'Z'
}

/// `c` with the letters `A` to `Z` mapped to `a` to `z`.
pub open spec fn lower(c: char) -> char {
    if is_upper(c) {
        ((c as u32) + 32) as char
    } else {
        c
    }
}

/// `s` with every ASCII capital mapped to its small letter.
pub open spec fn lowercase(s: Seq<char>) -> Seq<char> {
    s.map_values(|c: char| lower(c))
}

/// Equality up to ASCII case.
pub open spec fn same_ignoring_case(a: Seq<char>, b: Seq<char>) -> bool {
    lowercase(a) == lowercase(b)
}

/// The characters with the Unicode property White_Space.
pub open spec fn is_space(c: char) -> bool {
    ||| '\u{9}' <= c <= '\u{d}'
    ||| c == '\u{20}'
    ||| c == '\u{85}'
    ||| c == '\u{a0}'
    ||| c == '\u{1680}'
    ||| '\u{2000}' <= c <= '\u{200a}'
    ||| c == '\u{2028}'
    ||| c == '\u{2029}'
    ||| c == '\u{202f}'
    ||| c == '\u{205f}'
    ||| c == '\u{3000}'
}

pub fn is_whitespace(c: char) -> (res: bool)
    ensures
        res == is_space(c),
{
    ('\u{9}' <= c && c <= '\u{d}') || c == '\u{20}' || c == '\u{85}' || c == '\u{a0}' || c
        == '\u{1680}' || ('\u{2000}' <= c && c <= '\u{200a}') || c == '\u{2028}' || c == '\u{2029}'
        || c == '\u{202f}' || c == '\u{205f}' || c == '\u{3000}'
}

/// The small letter of an ASCII capital; other characters unchanged.
pub fn lower_char(c: char) -> (res: char)
    ensures
        res == lower(c),
{
    if 'A' <= c && c <= 'Z' {
        (c as u8 + 32) as char
    } else {
        c
    }
}

/// Whether both slices hold the same characters.
pub fn text_eq(a: &str, b: &str) -> (res: bool)
    ensures
        res == (a@ == b@),
{
    *a == *b
}

/// The characters of `s`.
pub fn chars_of(s: &str) -> (res: Vec<char>)
    ensures
        res@ == s@,
{
    let mut res: Vec<char> = Vec::new();
    for c in it: s.chars()
        invariant
            res@ == s@.take(it.index()),
            it.seq() == s@,
    {
        res.push(c);
    }
    res
}

/// The string made of `chars`.
pub fn string_of(chars: &Vec<char>) -> (res: String)
    ensures
        res@ == chars@,
{
    let mut res = String::new();
    let mut i: usize = 0;
    while i < chars.len()
        invariant
            i <= chars.len(),
            res@ == chars@.take(i as int),
        decreases chars.len() - i,
    {
        res.push(chars[i]);
        i = i + 1;
    }
    assert(chars@.take(i as int) == chars@);
    res
}

pub fn to_ascii_lowercase(s: &str) -> (res: String)
    ensures
        res@ == lowercase(s@),
{
    let mut res = String::new();
    for c in it: s.chars()
        invariant
            res@ == lowercase(s@.take(it.index())),
            it.seq() == s@,
    {
        res.push(lower_char(c));
    }
    res
}

pub fn eq_ignore_ascii_case(a: &str, b: &str) -> (res: bool)
    ensures
        res == same_ignoring_case(a@, b@),
{
    to_ascii_lowercase(a) == to_ascii_lowercase(b)
}

/// `s` read from the first character that is not white space.
pub open spec fn skip_spaces(s: Seq<char>) -> Seq<char>
    decreases s.len(),
{
    if s.len() > 0 && is_space(s[0]) {
        skip_spaces(s.drop_first())
    } else {
        s
    }
}

/// How many characters `s` has before its first white space.
pub open spec fn word_len(s: Seq<char>) -> nat
    decreases s.len(),
{
    if s.len() > 0 && !is_space(s[0]) {
        1 + word_len(s.drop_first())
    } else {
        0
    }
}

/// The maximal runs of characters without white space, in order.
pub open spec fn words(s: Seq<char>) -> Seq<Seq<char>>
    decreases s.len(),
    via words_decreases
{
    let t = skip_spaces(s);
    if t.len() == 0 {
        Seq::empty()
    } else {
        seq![t.take(word_len(t) as int)] + words(t.skip(word_len(t) as int))
    }
}

#[via_fn]
proof fn words_decreases(s: Seq<char>) {
    lemma_skip_spaces(s);
    lemma_word_len(skip_spaces(s));
}

pub proof fn lemma_skip_spaces(s: Seq<char>)
    ensures
        skip_spaces(s).len() <= s.len(),
        skip_spaces(s) == s.skip(s.len() - skip_spaces(s).len()),
        skip_spaces(s).len() > 0 ==> !is_space(skip_spaces(s)[0]),
    decreases s.len(),
{
    if s.len() > 0 && is_space(s[0]) {
        lemma_skip_spaces(s.drop_first());
        let r = skip_spaces(s);
        assert(r == s.drop_first().skip(s.len() - 1 - r.len()));
        assert(r == s.skip(s.len() - r.len()));
    } else {
        assert(s.skip(0) == s);
    }
}

pub proof fn lemma_word_len(s: Seq<char>)
    ensures
        word_len(s) <= s.len(),
        s.len() > 0 && !is_space(s[0]) ==> word_len(s) > 0,
        forall|i: int| 0 <= i < word_len(s) ==> !is_space(#[trigger] s[i]),
        word_len(s) < s.len() ==> is_space(s[word_len(s) as int]),
    decreases s.len(),
{
    if s.len() > 0 && !is_space(s[0]) {
        lemma_word_len(s.drop_first());
        assert forall|i: int| 0 <= i < word_len(s) implies !is_space(#[trigger] s[i]) by {
            if i > 0 {
                assert(s.drop_first()[i - 1] == s[i]);
            }
        }
    }
}

/// The words of `s`, split at white space.
pub fn split_whitespace(s: &str) -> (res: Vec<String>)
    ensures
        res@.map_values(|w: String| w@) == words(s@),
{
    let chars = chars_of(s);
    let mut res: Vec<String> = Vec::new();
    let mut i: usize = 0;
    proof {
        assert(chars@.skip(0) == chars@);
        assert(res@.map_values(|w: String| w@) + words(chars@) == words(chars@));
    }
    loop
        invariant
            i <= chars.len(),
            chars@ == s@,
            res@.map_values(|w: String| w@) + words(chars@.skip(i as int)) == words(s@),
        ensures
            res@.map_values(|w: String| w@) == words(s@),
        decreases chars.len() - i,
    {
        let ghost rest = chars@.skip(i as int);
        proof {
            lemma_skip_spaces(rest);
            lemma_word_len(skip_spaces(rest));
        }
        while i < chars.len() && is_whitespace(chars[i])
            invariant
                i <= chars.len(),
                skip_spaces(chars@.skip(i as int)) == skip_spaces(rest),
            ensures
                i <= chars.len(),
                chars@.skip(i as int) == skip_spaces(rest),
            decreases chars.len() - i,
        {
            assert(chars@.skip(i as int).drop_first() == chars@.skip(i + 1));
            i = i + 1;
        }
        if i == chars.len() {
            proof {
                assert(skip_spaces(rest).len() == 0);
                assert(words(rest).len() == 0);
                assert(res@.map_values(|w: String| w@) + words(rest) == res@.map_values(
                    |w: String| w@,
                ));
            }
            break;
        }
        let ghost t = chars@.skip(i as int);
        let ghost start = i as int;
        let mut word = String::new();
        while i < chars.len() && !is_whitespace(chars[i])
            invariant
                start <= i <= chars.len(),
                0 <= start,
                t == chars@.skip(start),
                i - start <= word_len(t),
                word_len(t) == (i - start) + word_len(chars@.skip(i as int)),
                word@ == t.take(i - start),
            ensures
                start <= i <= chars.len(),
                i - start == word_len(t),
                word@ == t.take(i - start),
            decreases chars.len() - i,
        {
            assert(chars@.skip(i as int).drop_first() == chars@.skip(i + 1));
            word.push(chars[i]);
            assert(word@ == t.take(i + 1 - start));
            i = i + 1;
        }
        let ghost before = res@.map_values(|w: String| w@);
        proof {
            assert(t.skip(word_len(t) as int) == chars@.skip(i as int));
            assert(words(rest) == seq![word@] + words(chars@.skip(i as int)));
        }
        res.push(word);
        proof {
            assert(res@.map_values(|w: String| w@) == before.push(word@));
            assert(before + (seq![word@] + words(chars@.skip(i as int))) == before.push(word@)
                + words(chars@.skip(i as int)));
        }
    }
    res
}

/// Whether some word of `s` equals `w`.
pub fn has_word(s: &str, w: &str) -> (res: bool)
    ensures
        res == words(s@).contains(w@),
{
    let all = split_whitespace(s);
    let mut i: usize = 0;
    while i < all.len()
        invariant
            i <= all.len(),
            all@.map_values(|x: String| x@) == words(s@),
            forall|j: int| 0 <= j < i ==> #[trigger] words(s@)[j] != w@,
        decreases all.len() - i,
    {
        assert(words(s@)[i as int] == all@.map_values(|x: String| x@)[i as int]);
        if text_eq(all[i].as_str(), w) {
            return true;
        }
        i = i + 1;
    }
    false
}

/// Whether `p` stands at position `at` of `s`.
pub open spec fn occurs_at(s: Seq<char>, p: Seq<char>, at: int) -> bool {
    0 <= at && at + p.len() <= s.len() && s.subrange(at, at + p.len()) == p
}

/// Whether `s` begins with `p`.
pub open spec fn has_prefix(s: Seq<char>, p: Seq<char>) -> bool {
    occurs_at(s, p, 0)
}

/// Whether `s` ends with `p`.
pub open spec fn has_suffix(s: Seq<char>, p: Seq<char>) -> bool {
    occurs_at(s, p, s.len() - p.len())
}

/// Whether `p` stands anywhere in `s`.
pub open spec fn has_substring(s: Seq<char>, p: Seq<char>) -> bool {
    exists|at: int| #[trigger] occurs_at(s, p, at)
}

fn chars_occur_at(s: &Vec<char>, p: &Vec<char>, at: usize) -> (res: bool)
    requires
        at <= s.len(),
    ensures
        res == occurs_at(s@, p@, at as int),
{
    if p.len() > s.len() - at {
        return false;
    }
    let mut i: usize = 0;
    while i < p.len()
        invariant
            i <= p.len(),
            p.len() <= s.len() - at,
            forall|j: int| 0 <= j < i ==> s@[at + j] == #[trigger] p@[j],
        decreases p.len() - i,
    {
        if s[at + i] != p[i] {
            assert(s@.subrange(at as int, at + p@.len())[i as int] != p@[i as int]);
            return false;
        }
        i = i + 1;
    }
    assert(s@.subrange(at as int, at + p@.len()) == p@);
    true
}

pub fn starts_with(s: &str, p: &str) -> (res: bool)
    ensures
        res == has_prefix(s@, p@),
{
    chars_occur_at(&chars_of(s), &chars_of(p), 0)
}

/// What follows `p` in `s`, if `s` begins with `p`.
pub fn strip_prefix(s: &str, p: &str) -> (res: Option<String>)
    ensures
        match res {
            Some(rest) => has_prefix(s@, p@) && rest@ == s@.skip(p@.len() as int),
            None => !has_prefix(s@, p@),
        },
{
    let sv = chars_of(s);
    let pv = chars_of(p);
    if !chars_occur_at(&sv, &pv, 0) {
        return None;
    }
    let mut rest = String::new();
    let mut i: usize = pv.len();
    while i < sv.len()
        invariant
            pv.len() <= i <= sv.len(),
            rest@ == sv@.subrange(pv.len() as int, i as int),
        decreases sv.len() - i,
    {
        rest.push(sv[i]);
        i = i + 1;
    }
    Some(rest)
}

pub fn ends_with(s: &str, p: &str) -> (res: bool)
    ensures
        res == has_suffix(s@, p@),
{
    let sv = chars_of(s);
    let pv = chars_of(p);
    if pv.len() > sv.len() {
        return false;
    }
    let at: usize = sv.len() - pv.len();
    chars_occur_at(&sv, &pv, at)
}

pub fn contains_str(s: &str, p: &str) -> (res: bool)
    ensures
        res == has_substring(s@, p@),
{
    let sv = chars_of(s);
    let pv = chars_of(p);
    let mut at: usize = 0;
    loop
        invariant
            sv@ == s@,
            pv@ == p@,
            at <= sv.len(),
            forall|j: int| 0 <= j < at ==> !#[trigger] occurs_at(s@, p@, j),
        decreases sv.len() - at,
    {
        if chars_occur_at(&sv, &pv, at) {
            return true;
        }
        if at == sv.len() {
            return false;
        }
        at = at + 1;
    }
}

/// Whether `s` holds the character `c`.
pub fn contains_char(s: &str, c: char) -> (res: bool)
    ensures
        res == s@.contains(c),
{
    let sv = chars_of(s);
    let mut i: usize = 0;
    while i < sv.len()
        invariant
            i <= sv.len(),
            sv@ == s@,
            forall|j: int| 0 <= j < i ==> s@[j] != c,
        decreases sv.len() - i,
    {
        if sv[i] == c {
            assert(s@[i as int] == c);
            return true;
        }
        i = i + 1;
    }
    false
}

/// The dictionary order on character sequences, by code point.
pub open spec fn before(a: Seq<char>, b: Seq<char>) -> bool
    decreases a.len(),
{
    b.len() > 0 && (a.len() == 0 || a[0] < b[0] || (a[0] == b[0] && before(
        a.drop_first(),
        b.drop_first(),
    )))
}

/// The dictionary order is irreflexive.
pub proof fn lemma_before_irreflexive(a: Seq<char>)
    ensures
        !before(a, a),
    decreases a.len(),
{
    if a.len() > 0 {
        lemma_before_irreflexive(a.drop_first());
    }
}

/// The dictionary order is transitive.
pub proof fn lemma_before_transitive(a: Seq<char>, b: Seq<char>, c: Seq<char>)
    requires
        before(a, b),
        before(b, c),
    ensures
        before(a, c),
    decreases a.len(),
{
    if a.len() > 0 && a[0] == b[0] && b[0] == c[0] {
        lemma_before_transitive(a.drop_first(), b.drop_first(), c.drop_first());
    }
}

/// Two different sequences are ordered one way or the other.
pub proof fn lemma_before_total(a: Seq<char>, b: Seq<char>)
    ensures
        before(a, b) || before(b, a) || a == b,
    decreases a.len(),
{
    if a.len() > 0 && b.len() > 0 && a[0] == b[0] {
        lemma_before_total(a.drop_first(), b.drop_first());
        if a.drop_first() == b.drop_first() {
            assert(a == seq![a[0]] + a.drop_first());
            assert(b == seq![b[0]] + b.drop_first());
        }
    } else if a.len() == 0 && b.len() == 0 {
        assert(a == b);
    }
}

/// Whether `a` stands before `b` in the dictionary order.
pub fn is_before(a: &str, b: &str) -> (res: bool)
    ensures
        res == before(a@, b@),
{
    let av = chars_of(a);
    let bv = chars_of(b);
    let mut i: usize = 0;
    proof {
        assert(av@.skip(0) == a@);
        assert(bv@.skip(0) == b@);
    }
    loop
        invariant
            i <= av.len(),
            i <= bv.len(),
            before(av@.skip(i as int), bv@.skip(i as int)) == before(a@, b@),
        decreases av.len() - i,
    {
        if i == bv.len() {
            return false;
        }
        if i == av.len() {
            return true;
        }
        if av[i] != bv[i] {
            return av[i] < bv[i];
        }
        proof {
            assert(av@.skip(i as int).drop_first() == av@.skip(i + 1));
            assert(bv@.skip(i as int).drop_first() == bv@.skip(i + 1));
        }
        i = i + 1;
    }
}

/// The decimal digit of `d`.
pub open spec fn digit(d: nat) -> char {
    (('0' as u32) + d) as char
}

/// `n` written in decimal.
pub open spec fn decimal(n: nat) -> Seq<char>
    decreases n,
{
    if n < 10 {
        seq![digit(n)]
    } else {
        decimal(n / 10).push(digit(n % 10))
    }
}

/// Appends `n` in decimal to `out`.
pub fn push_decimal(out: &mut String, n: usize)
    ensures
        final(out)@ == old(out)@ + decimal(n as nat),
    decreases n,
{
    if n >= 10 {
        push_decimal(out, n / 10);
    }
    let ghost mid = out@;
    let d: u8 = (n % 10) as u8;
    out.push((48u8 + d) as char);
    proof {
        if n >= 10 {
            assert(mid.push(digit((n % 10) as nat)) == old(out)@ + decimal((n / 10) as nat).push(
                digit((n % 10) as nat),
            ));
        } else {
            assert(mid.push(digit(n as nat)) == old(out)@ + seq![digit(n as nat)]);
        }
    }
}

/// An optional number in debugging output.
pub open spec fn option_text(n: Option<usize>) -> Seq<char> {
    match n {
        Some(x) => "Some("@ + decimal(x as nat) + ")"@,
        None => "None"@,
    }
}

/// Numbers separated by a comma and a space.
pub open spec fn numbers_text(s: Seq<usize>) -> Seq<char>
    decreases s.len(),
{
    if s.len() == 0 {
        Seq::empty()
    } else if s.len() == 1 {
        decimal(s[0] as nat)
    } else {
        numbers_text(s.drop_last()) + ", "@ + decimal(s.last() as nat)
    }
}

/// A list of numbers in debugging output.
pub open spec fn list_text(s: Seq<usize>) -> Seq<char> {
    "["@ + numbers_text(s) + "]"@
}

/// Appends an optional number to `out`.
pub fn push_option(out: &mut String, n: Option<usize>)
    ensures
        final(out)@ == old(out)@ + option_text(n),
{
    let ghost start = out@;
    match n {
        Some(x) => {
            out.push_str("Some(");
            push_decimal(out, x);
            out.push_str(")");
            assert(out@ =~= start + option_text(n));
        },
        None => {
            out.push_str("None");
        },
    }
}

/// Appends a list of numbers to `out`.
pub fn push_list(out: &mut String, list: &Vec<usize>)
    ensures
        final(out)@ == old(out)@ + list_text(list@),
{
    let ghost start = out@;
    out.push_str("[");
    let mut i: usize = 0;
    proof {
        assert(out@ =~= start + "["@ + numbers_text(list@.take(0)));
    }
    while i < list.len()
        invariant
            i <= list.len(),
            out@ == start + "["@ + numbers_text(list@.take(i as int)),
        decreases list.len() - i,
    {
        let ghost next = list@.take(i + 1);
        proof {
            assert(next.drop_last() == list@.take(i as int));
            assert(next.last() == list@[i as int]);
        }
        if i > 0 {
            out.push_str(", ");
        }
        push_decimal(out, list[i]);
        proof {
            if i == 0 {
                assert(numbers_text(list@.take(0)) == Seq::<char>::empty());
                assert(next[0] == list@[0]);
            }
            assert(out@ =~= start + "["@ + numbers_text(next));
        }
        i = i + 1;
    }
    out.push_str("]");
    proof {
        assert(list@.take(i as int) == list@);
        assert(out@ =~= start + list_text(list@));
    }
}

/// `s` without the white space at its end.
pub open spec fn trimmed_end(s: Seq<char>) -> Seq<char>
    decreases s.len(),
{
    if s.len() > 0 && is_space(s.last()) {
        trimmed_end(s.drop_last())
    } else {
        s
    }
}

/// `s` without the white space at both ends.
pub open spec fn trimmed(s: Seq<char>) -> Seq<char> {
    trimmed_end(skip_spaces(s))
}

/// The part of `s` between the white space at both ends.
pub fn trim(s: &Vec<char>) -> (res: String)
    ensures
        res@ == trimmed(s@),
{
    let mut a: usize = 0;
    assert(s@.skip(0) =~= s@);
    while a < s.len() && is_whitespace(s[a])
        invariant
            a <= s.len(),
            skip_spaces(s@.skip(a as int)) == skip_spaces(s@),
        decreases s.len() - a,
    {
        assert(s@.skip(a as int)[0] == s@[a as int]);
        assert(s@.skip(a as int).drop_first() =~= s@.skip(a + 1));
        a = a + 1;
    }
    proof {
        if a < s.len() {
            assert(s@.skip(a as int)[0] == s@[a as int]);
        }
    }
    let mut b: usize = s.len();
    assert(s@.subrange(a as int, b as int) =~= s@.skip(a as int));
    while a < b && is_whitespace(s[b - 1])
        invariant
            a <= b <= s.len(),
            trimmed_end(s@.subrange(a as int, b as int)) == trimmed(s@),
        decreases b - a,
    {
        let ghost now = s@.subrange(a as int, b as int);
        assert(now.last() == s@[b - 1]);
        assert(now.drop_last() =~= s@.subrange(a as int, b - 1));
        b = b - 1;
    }
    let ghost rest = s@.subrange(a as int, b as int);
    proof {
        if a < b {
            assert(rest.last() == s@[b - 1]);
        }
    }
    let mut res = String::new();
    let mut i: usize = a;
    while i < b
        invariant
            a <= i <= b <= s.len(),
            res@ == s@.subrange(a as int, i as int),
        decreases b - i,
    {
        res.push(s[i]);
        i = i + 1;
        assert(res@ =~= s@.subrange(a as int, i as int));
    }
    res
}

/// The parts of `s` between the characters `c`.
pub open spec fn parts(s: Seq<char>, c: char) -> Seq<Seq<char>>
    decreases s.len(),
{
    if s.len() == 0 {
        seq![Seq::empty()]
    } else {
        let front = parts(s.drop_last(), c);
        if s.last() == c {
            front.push(Seq::empty())
        } else {
            front.update(front.len() - 1, front.last().push(s.last()))
        }
    }
}

/// The parts of `s` between the characters `c`.
pub fn split(s: &str, c: char) -> (res: Vec<Vec<char>>)
    ensures
        res@.map_values(|p: Vec<char>| p@) == parts(s@, c),
{
    let mut done: Vec<Vec<char>> = Vec::new();
    let mut current: Vec<char> = Vec::new();
    let chars = chars_of(s);
    let mut i: usize = 0;
    assert(done@.map_values(|p: Vec<char>| p@).push(current@) =~= parts(s@.take(0), c));
    while i < chars.len()
        invariant
            i <= chars.len(),
            chars@ == s@,
            done@.map_values(|p: Vec<char>| p@).push(current@) == parts(s@.take(i as int), c),
        decreases chars.len() - i,
    {
        let ghost front = parts(s@.take(i as int), c);
        proof {
            assert(s@.take(i + 1).drop_last() =~= s@.take(i as int));
            assert(s@.take(i + 1).last() == s@[i as int]);
            assert(front.last() == current@);
        }
        if chars[i] == c {
            let ghost before = done@.map_values(|p: Vec<char>| p@);
            let mut finished: Vec<char> = Vec::new();
            std::mem::swap(&mut finished, &mut current);
            done.push(finished);
            assert(done@.map_values(|p: Vec<char>| p@) =~= before.push(front.last()));
            assert(done@.map_values(|p: Vec<char>| p@).push(current@) =~= front.push(
                Seq::empty(),
            ));
        } else {
            current.push(chars[i]);
            assert(done@.map_values(|p: Vec<char>| p@).push(current@) =~= front.update(
                front.len() - 1,
                front.last().push(s@[i as int]),
            ));
        }
        i = i + 1;
    }
    assert(s@.take(i as int) =~= s@);
    let ghost before = done@.map_values(|p: Vec<char>| p@);
    let ghost last = current@;
    done.push(current);
    assert(done@.map_values(|p: Vec<char>| p@) =~= before.push(last));
    done
}

/// Texts with a separator between them.
pub open spec fn joined(texts: Seq<Seq<char>>, sep: Seq<char>) -> Seq<char>
    decreases texts.len(),
{
    if texts.len() == 0 {
        Seq::empty()
    } else if texts.len() == 1 {
        texts[0]
    } else {
        joined(texts.drop_last(), sep) + sep + texts.last()
    }
}

/// `texts` with `sep` between them.
pub fn join(texts: &Vec<String>, sep: &str) -> (res: String)
    ensures
        res@ == joined(texts@.map_values(|t: String| t@), sep@),
{
    let mut out = String::new();
    let ghost all = texts@.map_values(|t: String| t@);
    let mut i: usize = 0;
    assert(out@ =~= joined(all.take(0), sep@));
    while i < texts.len()
        invariant
            i <= texts.len(),
            all == texts@.map_values(|t: String| t@),
            out@ == joined(all.take(i as int), sep@),
        decreases texts.len() - i,
    {
        let ghost next = all.take(i + 1);
        proof {
            assert(next.drop_last() =~= all.take(i as int));
            assert(next.last() == texts@[i as int]@);
        }
        if i > 0 {
            out.push_str(sep);
        }
        out.push_str(texts[i].as_str());
        proof {
            if i == 0 {
                assert(all.take(0).len() == 0);
                assert(next[0] == texts@[0]@);
            }
            assert(out@ =~= joined(next, sep@));
        }
        i = i + 1;
    }
    assert(all.take(i as int) =~= all);
    out
}

/// The form in which the standard library shows a string for debugging:
/// quoted, with escapes.
pub uninterp spec fn debug_form(s: Seq<char>) -> Seq<char>;

/// `format!("{:?}", s)` on a string slice. The result is a function of the
/// characters of `s`; what it escapes is left unsaid.
#[verifier::external_body]
pub(crate) fn debug_text(s: &str) -> (res: String)
    ensures
        res@ == debug_form(s@),
{
    format!("{:?}", s)
}

/// Appends a string in its debugging form to `out`.
pub fn push_debug(out: &mut String, s: &str)
    ensures
        final(out)@ == old(out)@ + debug_form(s@),
{
    let shown = debug_text(s);
    out.push_str(shown.as_str());
}

} // verus!
