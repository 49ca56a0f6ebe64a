//! Base64 as `btoa` and `atob` know it.

use vstd::prelude::*;
use vstd::utf8::{decode_utf8, encode_utf8, encode_utf8_decode_utf8, encode_utf8_valid_utf8,
    is_ascii_chars, is_ascii_chars_encode_utf8, valid_utf8};

verus! {

/// The character that stands for six bits.
pub open spec fn symbol(v: int) -> char {
    if v < 26 {
        ('A' as u32 + v) as char
    } else if v < 52 {
        ('a' as u32 + (v - 26)) as char
    } else if v < 62 {
        ('0' as u32 + (v - 52)) as char
    } else if v == 62 {
        '+'
    } else {
        '/'
    }
}

/// The six bits that a byte stands for.
pub open spec fn value(c: u8) -> Option<int> {
    if 65 <= c <= 90 {
        Some(c - 65)
    } else if 97 <= c <= 122 {
        Some(c - 97 + 26)
    } else if 48 <= c <= 57 {
        Some(c - 48 + 52)
    } else if c == 43 {
        Some(62)
    } else if c == 47 {
        Some(63)
    } else {
        None
    }
}

/// The base64 form of `b`: four characters for every three bytes, filled up
/// with `=` at the end.
pub open spec fn encoded(b: Seq<u8>) -> Seq<char>
    decreases b.len(),
{
    if b.len() == 0 {
        Seq::empty()
    } else if b.len() == 1 {
        seq![symbol(b[0] as int / 4), symbol((b[0] % 4) * 16), '=', '=']
    } else if b.len() == 2 {
        seq![
            symbol(b[0] as int / 4),
            symbol((b[0] % 4) * 16 + b[1] / 16),
            symbol((b[1] % 16) * 4),
            '=',
        ]
    } else {
        seq![
            symbol(b[0] as int / 4),
            symbol((b[0] % 4) * 16 + b[1] / 16),
            symbol((b[1] % 16) * 4 + b[2] / 64),
            symbol(b[2] as int % 64),
        ] + encoded(b.skip(3))
    }
}

/// The bytes that four characters stand for: one or two where the rest is
/// filled up, three otherwise.
pub open spec fn decoded_group(a: u8, b: u8, c: u8, d: u8) -> Option<Seq<u8>> {
    if value(a) is None || value(b) is None {
        None
    } else {
        let x = value(a)->0;
        let y = value(b)->0;
        let first = (x * 4 + y / 16) as u8;
        if c == 61 {
            Some(seq![first])
        } else if value(c) is None {
            None
        } else {
            let z = value(c)->0;
            let second = ((y % 16) * 16 + z / 4) as u8;
            if d == 61 {
                Some(seq![first, second])
            } else if value(d) is None {
                None
            } else {
                Some(seq![first, second, ((z % 4) * 64 + value(d)->0) as u8])
            }
        }
    }
}

/// The bytes that base64 characters stand for. Up to three characters that are
/// left over at the end are ignored.
pub open spec fn decoded(b: Seq<u8>) -> Option<Seq<u8>>
    decreases b.len(),
{
    if b.len() < 4 {
        Some(Seq::empty())
    } else {
        match (decoded_group(b[0], b[1], b[2], b[3]), decoded(b.skip(4))) {
            (Some(group), Some(rest)) => Some(group + rest),
            _ => None,
        }
    }
}

/// Whether a byte counts: line ends and spaces do not.
pub open spec fn counts(c: u8) -> bool {
    c != 10 && c != 13 && c != 32
}

/// The text that base64 text stands for, if it is base64 of UTF-8.
pub open spec fn decoded_text(s: Seq<char>) -> Option<Seq<char>> {
    match decoded(encode_utf8(s).filter(|c: u8| counts(c))) {
        Some(bytes) => if valid_utf8(bytes) {
            Some(decode_utf8(bytes))
        } else {
            None
        },
        None => None,
    }
}

/// `String::from_utf8`: the text that the bytes encode, if they are UTF-8.
#[verifier::external_body]
fn from_utf8(bytes: Vec<u8>) -> (res: Option<String>)
    ensures
        res is Some <==> valid_utf8(bytes@),
        res matches Some(s) ==> s@ == decode_utf8(bytes@),
{
    match String::from_utf8(bytes) {
        Ok(text) => Some(text),
        Err(_) => None,
    }
}

fn symbol_char(v: u8) -> (res: char)
    requires
        v < 64,
    ensures
        res == symbol(v as int),
{
    if v < 26 {
        (65 + v) as char
    } else if v < 52 {
        (97 + (v - 26)) as char
    } else if v < 62 {
        (48 + (v - 52)) as char
    } else if v == 62 {
        '+'
    } else {
        '/'
    }
}

fn val(c: u8) -> (res: Option<u8>)
    ensures
        match res {
            Some(v) => value(c) == Some(v as int) && v < 64,
            None => value(c) is None,
        },
{
    if 65 <= c && c <= 90 {
        Some(c - 65)
    } else if 97 <= c && c <= 122 {
        Some(c - 97 + 26)
    } else if 48 <= c && c <= 57 {
        Some(c - 48 + 52)
    } else if c == 43 {
        Some(62)
    } else if c == 47 {
        Some(63)
    } else {
        None
    }
}

/// The base64 form of `input`.
pub fn base64_encode(input: &[u8]) -> (res: String)
    ensures
        res@ == encoded(input@),
{
    let mut out = String::new();
    let mut i: usize = 0;
    assert(input@.skip(0) =~= input@);
    assert(out@ + encoded(input@.skip(0)) =~= encoded(input@));
    while input.len() - i >= 3
        invariant
            i <= input@.len(),
            out@ + encoded(input@.skip(i as int)) == encoded(input@),
        decreases input@.len() - i,
    {
        let ghost before = out@;
        let ghost rest = input@.skip(i as int);
        assert(rest[0] == input@[i as int] && rest[1] == input@[i + 1] && rest[2] == input@[i + 2]);
        assert(rest.skip(3) =~= input@.skip(i + 3));
        let a = input[i];
        let b = input[i + 1];
        let c = input[i + 2];
        out.push(symbol_char(a / 4));
        out.push(symbol_char((a % 4) * 16 + b / 16));
        out.push(symbol_char((b % 16) * 4 + c / 64));
        out.push(symbol_char(c % 64));
        i = i + 3;
        assert(out@ + encoded(input@.skip(i as int)) =~= before + encoded(rest));
    }
    let ghost rest = input@.skip(i as int);
    let ghost before = out@;
    if input.len() - i == 1 {
        assert(rest[0] == input@[i as int]);
        let a = input[i];
        out.push(symbol_char(a / 4));
        out.push(symbol_char((a % 4) * 16));
        out.push('=');
        out.push('=');
        assert(out@ =~= before + encoded(rest));
    } else if input.len() - i == 2 {
        assert(rest[0] == input@[i as int] && rest[1] == input@[i + 1]);
        let a = input[i];
        let b = input[i + 1];
        out.push(symbol_char(a / 4));
        out.push(symbol_char((a % 4) * 16 + b / 16));
        out.push(symbol_char((b % 16) * 4));
        out.push('=');
        assert(out@ =~= before + encoded(rest));
    } else {
        assert(out@ =~= before + encoded(rest));
    }
    out
}

/// Appends the bytes that four characters stand for; the result says whether
/// they stand for any.
fn decode_group(a: u8, b: u8, c: u8, d: u8, out: &mut Vec<u8>) -> (res: bool)
    ensures
        match decoded_group(a, b, c, d) {
            Some(group) => res && final(out)@ == old(out)@ + group,
            None => !res,
        },
{
    let ghost start = out@;
    let (x, y) = match (val(a), val(b)) {
        (Some(x), Some(y)) => (x, y),
        _ => return false,
    };
    out.push(x * 4 + y / 16);
    if c != 61 {
        let z = match val(c) {
            Some(z) => z,
            None => return false,
        };
        out.push((y % 16) * 16 + z / 4);
        if d != 61 {
            let w = match val(d) {
                Some(w) => w,
                None => return false,
            };
            out.push((z % 4) * 64 + w);
        }
    }
    assert(out@ =~= start + decoded_group(a, b, c, d)->0);
    true
}

fn counted_bytes(input: &[u8]) -> (res: Vec<u8>)
    ensures
        res@ == input@.filter(|c: u8| counts(c)),
{
    let mut res: Vec<u8> = Vec::new();
    let mut i: usize = 0;
    proof {
        reveal(Seq::filter);
        assert(input@.take(0).filter(|c: u8| counts(c)) =~= Seq::<u8>::empty());
    }
    while i < input.len()
        invariant
            i <= input@.len(),
            res@ == input@.take(i as int).filter(|c: u8| counts(c)),
        decreases input@.len() - i,
    {
        proof {
            reveal(Seq::filter);
            assert(input@.take(i + 1).drop_last() =~= input@.take(i as int));
            assert(input@.take(i + 1).last() == input@[i as int]);
        }
        let c = input[i];
        if c != 10 && c != 13 && c != 32 {
            res.push(c);
        }
        i = i + 1;
    }
    assert(input@.take(i as int) =~= input@);
    res
}

/// The text that `input` stands for. Nothing if a character is no base64, or
/// if the bytes are no UTF-8.
pub fn base64_decode(input: &str) -> (res: Option<String>)
    ensures
        match res {
            Some(text) => decoded_text(input@) == Some(text@),
            None => decoded_text(input@) is None,
        },
{
    let bytes = counted_bytes(input.as_bytes());
    let mut out: Vec<u8> = Vec::new();
    let mut i: usize = 0;
    let ghost whole = decoded(bytes@);
    proof {
        assert(bytes@.skip(0) =~= bytes@);
        assert(out@ =~= Seq::<u8>::empty());
        if let Some(rest) = whole {
            assert(out@ + rest =~= rest);
        }
    }
    while bytes.len() - i >= 4
        invariant
            i <= bytes@.len(),
            whole == (match decoded(bytes@.skip(i as int)) {
                Some(rest) => Some(out@ + rest),
                None => None,
            }),
            whole == decoded(bytes@),
            bytes@ == encode_utf8(input@).filter(|c: u8| counts(c)),
        decreases bytes@.len() - i,
    {
        let ghost before = out@;
        let ghost rest = bytes@.skip(i as int);
        proof {
            assert(rest[0] == bytes@[i as int] && rest[1] == bytes@[i + 1] && rest[2] == bytes@[i
                + 2] && rest[3] == bytes@[i + 3]);
            assert(rest.skip(4) =~= bytes@.skip(i + 4));
        }
        if !decode_group(bytes[i], bytes[i + 1], bytes[i + 2], bytes[i + 3], &mut out) {
            return None;
        }
        i = i + 4;
        proof {
            if let Some(tail) = decoded(bytes@.skip(i as int)) {
                let group = decoded_group(rest[0], rest[1], rest[2], rest[3])->0;
                assert(before + (group + tail) =~= out@ + tail);
            }
        }
    }
    assert(out@ + Seq::<u8>::empty() =~= out@);
    from_utf8(out)
}

proof fn lemma_symbol(v: int)
    requires
        0 <= v < 64,
    ensures
        value(symbol(v) as u8) == Some(v),
        symbol(v) as u8 != 61,
        counts(symbol(v) as u8),
        '\0' <= symbol(v) <= '\u{7f}',
{
}

/// The characters of a text, as bytes.
pub open spec fn as_bytes(s: Seq<char>) -> Seq<u8> {
    s.map_values(|c: char| c as u8)
}

/// Whether a character is ASCII and counts.
spec fn is_plain(c: char) -> bool {
    '\0' <= c <= '\u{7f}' && counts(c as u8)
}

proof fn lemma_one(a: u8)
    ensures
        decoded_group(
            symbol(a as int / 4) as u8,
            symbol((a % 4) * 16) as u8,
            '=' as u8,
            '=' as u8,
        ) == Some(seq![a]),
{
    lemma_symbol(a as int / 4);
    lemma_symbol((a % 4) * 16);
}

proof fn lemma_two(a: u8, b: u8)
    ensures
        decoded_group(
            symbol(a as int / 4) as u8,
            symbol((a % 4) * 16 + b / 16) as u8,
            symbol((b % 16) * 4) as u8,
            '=' as u8,
        ) == Some(seq![a, b]),
{
    lemma_symbol(a as int / 4);
    lemma_symbol((a % 4) * 16 + b / 16);
    lemma_symbol((b % 16) * 4);
}

proof fn lemma_three(a: u8, b: u8, c: u8)
    ensures
        decoded_group(
            symbol(a as int / 4) as u8,
            symbol((a % 4) * 16 + b / 16) as u8,
            symbol((b % 16) * 4 + c / 64) as u8,
            symbol(c as int % 64) as u8,
        ) == Some(seq![a, b, c]),
{
    lemma_symbol(a as int / 4);
    lemma_symbol((a % 4) * 16 + b / 16);
    lemma_symbol((b % 16) * 4 + c / 64);
    lemma_symbol(c as int % 64);
}

proof fn lemma_encoded_plain(b: Seq<u8>)
    ensures
        forall|i: int| 0 <= i < encoded(b).len() ==> is_plain(#[trigger] encoded(b)[i]),
    decreases b.len(),
{
    if b.len() > 0 {
        lemma_symbol(b[0] as int / 4);
        if b.len() == 1 {
            lemma_symbol((b[0] % 4) * 16);
        } else {
            lemma_symbol((b[0] % 4) * 16 + b[1] / 16);
            if b.len() == 2 {
                lemma_symbol((b[1] % 16) * 4);
            } else {
                lemma_symbol((b[1] % 16) * 4 + b[2] / 64);
                lemma_symbol(b[2] as int % 64);
                lemma_encoded_plain(b.skip(3));
                assert forall|i: int| 0 <= i < encoded(b).len() implies is_plain(
                    #[trigger] encoded(b)[i],
                ) by {
                    if i >= 4 {
                        assert(encoded(b)[i] == encoded(b.skip(3))[i - 4]);
                    }
                }
            }
        }
    }
}

proof fn lemma_encoded(b: Seq<u8>)
    ensures
        decoded(as_bytes(encoded(b))) == Some(b),
    decreases b.len(),
{
    let e = as_bytes(encoded(b));
    if b.len() == 0 {
        assert(b =~= Seq::<u8>::empty());
    } else if b.len() == 1 {
        lemma_one(b[0]);
        assert(decoded_group(e[0], e[1], e[2], e[3]) == Some(seq![b[0]]));
        assert(decoded(e.skip(4)) == Some(Seq::<u8>::empty()));
        assert(seq![b[0]] + Seq::<u8>::empty() =~= b);
    } else if b.len() == 2 {
        lemma_two(b[0], b[1]);
        assert(decoded_group(e[0], e[1], e[2], e[3]) == Some(seq![b[0], b[1]]));
        assert(decoded(e.skip(4)) == Some(Seq::<u8>::empty()));
        assert(seq![b[0], b[1]] + Seq::<u8>::empty() =~= b);
    } else {
        lemma_three(b[0], b[1], b[2]);
        lemma_encoded(b.skip(3));
        assert(decoded_group(e[0], e[1], e[2], e[3]) == Some(seq![b[0], b[1], b[2]]));
        assert(e.skip(4) =~= as_bytes(encoded(b.skip(3))));
        assert(seq![b[0], b[1], b[2]] + b.skip(3) =~= b);
    }
}

proof fn lemma_filter_all(b: Seq<u8>)
    requires
        forall|i: int| 0 <= i < b.len() ==> counts(#[trigger] b[i]),
    ensures
        b.filter(|c: u8| counts(c)) == b,
    decreases b.len(),
{
    reveal(Seq::filter);
    if b.len() > 0 {
        assert(counts(b[b.len() - 1]));
        assert forall|i: int| 0 <= i < b.drop_last().len() implies counts(
            #[trigger] b.drop_last()[i],
        ) by {
            assert(counts(b[i]));
        }
        lemma_filter_all(b.drop_last());
        assert(b.drop_last().push(b.last()) =~= b);
    }
}

/// Decoding gives back every text that was encoded.
pub proof fn law_decoding_undoes_encoding(s: Seq<char>)
    ensures
        decoded_text(encoded(encode_utf8(s))) == Some(s),
{
    let bytes = encode_utf8(s);
    let text = encoded(bytes);
    lemma_encoded(bytes);
    lemma_encoded_plain(bytes);
    assert(is_ascii_chars(text));
    is_ascii_chars_encode_utf8(text);
    assert(encode_utf8(text) =~= as_bytes(text));
    assert forall|i: int| 0 <= i < as_bytes(text).len() implies counts(
        #[trigger] as_bytes(text)[i],
    ) by {
        assert(is_plain(text[i]));
    }
    lemma_filter_all(as_bytes(text));
    encode_utf8_valid_utf8(s);
    encode_utf8_decode_utf8(s);
}

} // verus!
