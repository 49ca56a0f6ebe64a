//! What requests carry.

use crate::fetch::http::{ascii_text, has_header, is_forbidden, is_header_name, is_header_value,
    is_sent, is_text_value, own_headers, readable, request_headers, sent, Header};
use crate::text::{has_prefix, lowercase};
use vstd::prelude::*;

verus! {

/// Whether a header is left to the engine.
pub open spec fn is_reserved_header(name: Seq<char>) -> bool {
    ||| has_prefix(name, "proxy-"@)
    ||| has_prefix(name, "sec-"@)
    ||| seq![
        "host"@,
        "content-length"@,
        "user-agent"@,
        "accept-encoding"@,
        "connection"@,
        "cookie"@,
        "origin"@,
        "referer"@,
        "set-cookie"@,
        "te"@,
        "trailer"@,
        "transfer-encoding"@,
        "upgrade"@,
    ].contains(name)
}

/// The headers that a script may set, under their lower-case names, in the order
/// in which it asked for them.
pub open spec fn allowed_headers(asked: Seq<Header>) -> Seq<Header> {
    asked.filter(
        |h: Header|
            is_header_name(h.0) && is_header_value(h.1) && !is_reserved_header(lowercase(h.0)),
    ).map_values(|h: Header| (lowercase(h.0), h.1))
}

/// A request carries the engine's own headers first, and then every header that
/// was asked for and may be set. The content type of a body is told where the
/// script did not tell it, and only then.
pub proof fn law_requests_carry_what_was_asked(host: Seq<char>, asked: Seq<Header>, has_body: bool)
    ensures
        ({
            let own = own_headers(host);
            let all = request_headers(host, asked, has_body);
            let told = exists|i: int|
                0 <= i < allowed_headers(asked).len() && #[trigger] allowed_headers(asked)[i].0
                    == "content-type"@;
            &&& all.take((own.len() + allowed_headers(asked).len()) as int) == own
                + allowed_headers(asked)
            &&& all.skip((own.len() + allowed_headers(asked).len()) as int) == (if has_body
                && !told {
                seq![("content-type"@, "application/json"@)]
            } else {
                Seq::empty()
            })
        }),
{
    lemma_sent_allowed(asked);
    let own = own_headers(host);
    let n = (own.len() + allowed_headers(asked).len()) as int;
    let all = request_headers(host, asked, has_body);
    assert(all.take(n) =~= own + allowed_headers(asked));
    assert(has_header(sent(asked), "content-type"@) == exists|i: int|
        0 <= i < allowed_headers(asked).len() && #[trigger] allowed_headers(asked)[i].0
            == "content-type"@);
    if has_body && !has_header(sent(asked), "content-type"@) {
        assert(all.skip(n) =~= seq![("content-type"@, "application/json"@)]);
    } else {
        assert(all.skip(n) =~= Seq::<Header>::empty());
    }
}

proof fn lemma_sent_allowed(asked: Seq<Header>)
    ensures
        sent(asked) == allowed_headers(asked),
    decreases asked.len(),
{
    reveal(Seq::filter);
    let q = |h: Header|
        is_header_name(h.0) && is_header_value(h.1) && !is_reserved_header(lowercase(h.0));
    let f = |h: Header| (lowercase(h.0), h.1);
    if asked.len() == 0 {
        assert(sent(asked) =~= allowed_headers(asked));
    } else {
        lemma_sent_allowed(asked.drop_last());
        lemma_reserved(lowercase(asked.last().0));
        let front = asked.drop_last().filter(q);
        assert(q(asked.last()) == is_sent(asked.last()));
        if q(asked.last()) {
            assert(asked.filter(q) == front.push(asked.last()));
            assert(front.push(asked.last()).map_values(f) =~= front.map_values(f).push(
                f(asked.last()),
            ));
        }
    }
}

proof fn lemma_reserved(name: Seq<char>)
    ensures
        is_forbidden(name) == is_reserved_header(name),
{
    let list = seq![
        "host"@,
        "content-length"@,
        "user-agent"@,
        "accept-encoding"@,
        "connection"@,
        "cookie"@,
        "origin"@,
        "referer"@,
        "set-cookie"@,
        "te"@,
        "trailer"@,
        "transfer-encoding"@,
        "upgrade"@,
    ];
    if is_forbidden(name) && !is_reserved_header(name) {
        let i: int = if name == list[0] {
            0
        } else if name == list[1] {
            1
        } else if name == list[2] {
            2
        } else if name == list[3] {
            3
        } else if name == list[4] {
            4
        } else if name == list[5] {
            5
        } else if name == list[6] {
            6
        } else if name == list[7] {
            7
        } else if name == list[8] {
            8
        } else if name == list[9] {
            9
        } else if name == list[10] {
            10
        } else if name == list[11] {
            11
        } else {
            12
        };
        assert(list[i] == name);
    }
}

/// A response's headers are told in their order; only those whose value is no
/// readable text are left out.
pub proof fn law_readable_headers_are_told(h: Seq<(Seq<char>, Seq<u8>)>)
    ensures
        readable(h) == h.filter(|x: (Seq<char>, Seq<u8>)| is_text_value(x.1)).map_values(
            |x: (Seq<char>, Seq<u8>)| (x.0, x.1.map_values(|b: u8| b as char)),
        ),
    decreases h.len(),
{
    reveal(Seq::filter);
    let q = |x: (Seq<char>, Seq<u8>)| is_text_value(x.1);
    let f = |x: (Seq<char>, Seq<u8>)| (x.0, x.1.map_values(|b: u8| b as char));
    if h.len() == 0 {
        assert(readable(h) =~= h.filter(q).map_values(f));
    } else {
        law_readable_headers_are_told(h.drop_last());
        let front = h.drop_last().filter(q);
        if q(h.last()) {
            assert(h.filter(q) == front.push(h.last()));
            assert(ascii_text(h.last().1) =~= f(h.last()).1);
            assert(front.push(h.last()).map_values(f) =~= front.map_values(f).push(f(h.last())));
        }
    }
}

} // verus!
