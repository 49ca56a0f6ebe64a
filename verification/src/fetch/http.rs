//! HTTP requests and responses: what is sent, how requests are paced, and what
//! a response means.

use crate::text::{ends_with, has_prefix, has_suffix, lowercase, starts_with, text_eq};
use vstd::prelude::*;

verus! {

/// A header: its name and its value.
pub type Header = (Seq<char>, Seq<char>);

/// Why a resource could not be fetched.
#[derive(Debug, PartialEq, Eq)]
pub enum FetchError {
    /// The request could not be carried out.
    Network(String),
    /// The server answered with a status outside of 200 to 299.
    HttpStatus(u16, String),
}

/// An HTTP response before its status is judged.
#[derive(Debug, PartialEq, Eq)]
pub struct HttpResponse {
    pub status: u16,
    pub status_text: String,
    pub headers: Vec<(String, String)>,
    pub body: Vec<u8>,
}

/// A request that is ready to be sent.
#[derive(Debug, PartialEq, Eq)]
pub struct Request {
    pub method: String,
    /// The headers in the order in which they are added.
    pub headers: Vec<(String, String)>,
    pub body: Option<String>,
}

/// The user agent of a current Chrome. Sites gate their modern bundles on it.
pub const CHROME_UA: &'static str = "Mozilla/5.0 (X11; Linux x86_64) AppleWebKit/537.36 (KHTML, like Gecko) Chrome/137.0.0.0 Safari/537.36";

/// The engine's own user agent, with contact details.
pub const AURORA_UA: &'static str = "Aurora/0.1 (https://github.com/JohannaWeb/Aurora; experimental browser engine)";

/// The cookies that stand for a given consent.
pub const CONSENT_COOKIE: &'static str = "CONSENT=YES+1; SOCS=CAI";

/// The content types that are asked for.
pub const ACCEPT: &'static str = "text/html, text/css, */*";

/// The least time between two requests to a throttled host, in nanoseconds.
pub const REQUEST_INTERVAL: u64 = 150_000_000;

/// The headers of a list of string pairs.
pub open spec fn headers_view(h: Seq<(String, String)>) -> Seq<Header> {
    h.map_values(|e: (String, String)| (e.0@, e.1@))
}

/// The host that `url` names, if `url` is an absolute URL with a host.
pub uninterp spec fn url_host(url: Seq<char>) -> Option<Seq<char>>;

/// `url::Url::parse` followed by `Url::host_str`: the host of an absolute URL,
/// nothing for text that is no absolute URL or names no host. The result is a
/// function of the text alone.
#[verifier::external_body]
fn host_str(url: &str) -> (res: Option<String>)
    ensures
        url_host(url@) == (match res {
            Some(host) => Some(host@),
            None => None,
        }),
{
    match url::Url::parse(url) {
        Ok(parsed) => match parsed.host_str() {
            Some(host) => Some(host.to_string()),
            None => None,
        },
        Err(_) => None,
    }
}

/// The absolute URL that `href` names on the page at `base`, if `base` is an
/// absolute URL and `href` can be read against it.
pub uninterp spec fn url_joined(base: Seq<char>, href: Seq<char>) -> Option<Seq<char>>;

/// `url::Url::parse` on the base followed by `Url::join` and `Url::as_str`:
/// nothing where either text cannot be read. The result is a function of the two
/// texts alone.
#[verifier::external_body]
fn join_url(base: &str, href: &str) -> (res: Option<String>)
    ensures
        url_joined(base@, href@) == (match res {
            Some(url) => Some(url@),
            None => None,
        }),
{
    match url::Url::parse(base) {
        Ok(parsed) => match parsed.join(href) {
            Ok(url) => Some(url.as_str().to_string()),
            Err(_) => None,
        },
        Err(_) => None,
    }
}

/// The absolute URL that `href` names on the page at `base`.
pub fn resolve_relative_url(base: &str, href: &str) -> (res: Option<String>)
    ensures
        url_joined(base@, href@) == (match res {
            Some(url) => Some(url@),
            None => None,
        }),
{
    join_url(base, href)
}

/// Whether `c` may stand in a method or a header name.
pub open spec fn is_token_char(c: char) -> bool {
    ||| '0' <= c <= '9'
    ||| 'a' <= c <= 'z'
    ||| 'A' <= c <= 'Z'
    ||| c == '!' || c == '#' || c == '$' || c == '%' || c == '&' || c == '\''
    ||| c == '*' || c == '+' || c == '-' || c == '.'
    ||| c == '^' || c == '_' || c == '`' || c == '|' || c == '~'
}

/// Whether `s` is a token: at least one character, all of them token characters.
pub open spec fn is_token(s: Seq<char>) -> bool {
    s.len() > 0 && forall|i: int| 0 <= i < s.len() ==> is_token_char(#[trigger] s[i])
}

/// Whether `s` is a header name: a token of at most 65535 characters.
pub open spec fn is_header_name(s: Seq<char>) -> bool {
    is_token(s) && s.len() <= 65535
}

/// Whether `c` may stand in a header value.
pub open spec fn is_value_char(c: char) -> bool {
    c == '\t' || (c >= ' ' && c != '\u{7f}')
}

/// Whether `s` is a header value.
pub open spec fn is_header_value(s: Seq<char>) -> bool {
    forall|i: int| 0 <= i < s.len() ==> is_value_char(#[trigger] s[i])
}

/// `reqwest::header::HeaderName::from_bytes` on the bytes of `name`, and the
/// name's `as_str`: header names are accepted in any case and kept in small
/// letters, everything else is refused.
#[verifier::external_body]
fn header_name(name: &str) -> (res: Option<String>)
    ensures
        res is Some <==> is_header_name(name@),
        res matches Some(n) ==> n@ == lowercase(name@),
{
    match reqwest::header::HeaderName::from_bytes(name.as_bytes()) {
        Ok(parsed) => Some(parsed.as_str().to_string()),
        Err(_) => None,
    }
}

/// Whether `reqwest::header::HeaderValue::from_str` accepts `value`: it refuses
/// control characters other than the tab.
#[verifier::external_body]
fn accepts_value(value: &str) -> (res: bool)
    ensures
        res == is_header_value(value@),
{
    reqwest::header::HeaderValue::from_str(value).is_ok()
}

/// `reqwest::Method::from_bytes` on the bytes of `method`, and the method's
/// `as_str`: tokens are kept as they are, everything else is refused.
#[verifier::external_body]
fn known_method(method: &str) -> (res: Option<String>)
    ensures
        res is Some <==> is_token(method@),
        res matches Some(m) ==> m@ == method@,
{
    match reqwest::Method::from_bytes(method.as_bytes()) {
        Ok(parsed) => Some(parsed.as_str().to_string()),
        Err(_) => None,
    }
}

/// The reason phrase that goes with a status code, if it is a known one.
pub uninterp spec fn status_reason(status: u16) -> Option<Seq<char>>;

/// `reqwest::StatusCode::from_u16` followed by `canonical_reason`: the phrase
/// that a table of the known codes gives.
#[verifier::external_body]
fn canonical_reason(status: u16) -> (res: Option<String>)
    ensures
        status_reason(status) == (match res {
            Some(reason) => Some(reason@),
            None => None,
        }),
{
    match reqwest::StatusCode::from_u16(status) {
        Ok(code) => match code.canonical_reason() {
            Some(reason) => Some(reason.to_string()),
            None => None,
        },
        Err(_) => None,
    }
}

/// The text that `bytes` encode in UTF-8, with replacement characters for what
/// is no UTF-8.
pub uninterp spec fn lossy_text(bytes: Seq<u8>) -> Seq<char>;

/// `String::from_utf8_lossy`, which is a function of the bytes alone.
#[verifier::external_body]
pub(crate) fn from_utf8_lossy(bytes: &Vec<u8>) -> (res: String)
    ensures
        res@ == lossy_text(bytes@),
{
    String::from_utf8_lossy(bytes).into_owned()
}

/// A text that may be absent, which then is empty.
pub open spec fn text_or_empty(text: Option<Seq<char>>) -> Seq<char> {
    match text {
        Some(t) => t,
        None => Seq::empty(),
    }
}

fn host_of(url: &str) -> (res: String)
    ensures
        res@ == text_or_empty(url_host(url@)),
{
    match host_str(url) {
        Some(host) => host,
        None => {
            let empty = String::new();
            assert(empty@ =~= Seq::<char>::empty());
            empty
        },
    }
}

/// The user agent shown to a host. Wikimedia asks for a descriptive one.
pub open spec fn agent_for(host: Seq<char>) -> Seq<char> {
    if has_suffix(host, "wikimedia.org"@) || has_suffix(host, "wikipedia.org"@) {
        AURORA_UA@
    } else {
        CHROME_UA@
    }
}

/// The user agent shown to `host`.
pub fn ua_for_host(host: &str) -> (res: &'static str)
    ensures
        res@ == agent_for(host@),
{
    if ends_with(host, "wikimedia.org") || ends_with(host, "wikipedia.org") {
        AURORA_UA
    } else {
        CHROME_UA
    }
}

/// The user agent with which `url` is requested.
pub fn ua_for(url: &str) -> (res: &'static str)
    ensures
        res@ == agent_for(text_or_empty(url_host(url@))),
{
    let host = host_of(url);
    ua_for_host(host.as_str())
}

/// Whether a host wants a sign of consent before it serves its real content.
pub open spec fn wants_consent(host: Seq<char>) -> bool {
    has_suffix(host, "youtube.com"@) || has_suffix(host, "google.com"@) || has_suffix(
        host,
        "ytimg.com"@,
    )
}

/// The cookies sent to `host`.
pub fn consent_cookie_for_host(host: &str) -> (res: Option<&'static str>)
    ensures
        match res {
            Some(cookie) => wants_consent(host@) && cookie@ == CONSENT_COOKIE@,
            None => !wants_consent(host@),
        },
{
    if ends_with(host, "youtube.com") || ends_with(host, "google.com") || ends_with(
        host,
        "ytimg.com",
    ) {
        Some(CONSENT_COOKIE)
    } else {
        None
    }
}

/// The cookies sent with a request for `url`.
pub fn consent_cookie_for(url: &str) -> (res: Option<&'static str>)
    ensures
        match res {
            Some(cookie) => wants_consent(text_or_empty(url_host(url@))) && cookie@ == CONSENT_COOKIE@,
            None => !wants_consent(text_or_empty(url_host(url@))),
        },
{
    let host = host_of(url);
    consent_cookie_for_host(host.as_str())
}

/// Whether a header belongs to the transport, so that scripts cannot set it.
/// The name is in small letters.
pub open spec fn is_forbidden(name: Seq<char>) -> bool {
    ||| name == "host"@
    ||| name == "content-length"@
    ||| name == "user-agent"@
    ||| name == "accept-encoding"@
    ||| name == "connection"@
    ||| name == "cookie"@
    ||| name == "origin"@
    ||| name == "referer"@
    ||| name == "set-cookie"@
    ||| name == "te"@
    ||| name == "trailer"@
    ||| name == "transfer-encoding"@
    ||| name == "upgrade"@
    ||| has_prefix(name, "proxy-"@)
    ||| has_prefix(name, "sec-"@)
}

/// Whether the header `name`, in small letters, belongs to the transport.
pub fn is_forbidden_request_header(name: &str) -> (res: bool)
    ensures
        res == is_forbidden(name@),
{
    text_eq(name, "host") || text_eq(name, "content-length") || text_eq(name, "user-agent")
        || text_eq(name, "accept-encoding") || text_eq(name, "connection") || text_eq(
        name,
        "cookie",
    ) || text_eq(name, "origin") || text_eq(name, "referer") || text_eq(name, "set-cookie")
        || text_eq(name, "te") || text_eq(name, "trailer") || text_eq(name, "transfer-encoding")
        || text_eq(name, "upgrade") || starts_with(name, "proxy-") || starts_with(name, "sec-")
}

/// Whether a header that a script asks for is sent.
pub open spec fn is_sent(h: Header) -> bool {
    is_header_name(h.0) && !is_forbidden(lowercase(h.0)) && is_header_value(h.1)
}

/// The headers of a script that are sent, in their order.
pub open spec fn sent(h: Seq<Header>) -> Seq<Header>
    decreases h.len(),
{
    if h.len() == 0 {
        Seq::empty()
    } else if is_sent(h.last()) {
        sent(h.drop_last()).push((lowercase(h.last().0), h.last().1))
    } else {
        sent(h.drop_last())
    }
}

/// Whether a header of that name is in the list.
pub open spec fn has_header(h: Seq<Header>, name: Seq<char>) -> bool {
    exists|i: int| 0 <= i < h.len() && #[trigger] h[i].0 == name
}

/// The headers that the engine sends of its own accord.
pub open spec fn own_headers(host: Seq<char>) -> Seq<Header> {
    let always = seq![("accept"@, ACCEPT@), ("user-agent"@, agent_for(host))];
    if wants_consent(host) {
        always.push(("cookie"@, CONSENT_COOKIE@))
    } else {
        always
    }
}

/// All headers of a request to `host`.
pub open spec fn request_headers(host: Seq<char>, asked: Seq<Header>, has_body: bool) -> Seq<
    Header,
> {
    let all = own_headers(host) + sent(asked);
    if has_body && !has_header(sent(asked), "content-type"@) {
        all.push(("content-type"@, "application/json"@))
    } else {
        all
    }
}

/// The method of a request: the one asked for if it is one, `GET` otherwise.
pub open spec fn method_text(method: Seq<char>) -> Seq<char> {
    if is_token(method) {
        method
    } else {
        "GET"@
    }
}

proof fn lemma_has_header_push(h: Seq<Header>, added: Header, name: Seq<char>)
    ensures
        has_header(h.push(added), name) == (has_header(h, name) || added.0 == name),
{
    let all = h.push(added);
    if has_header(h, name) {
        let i = choose|i: int| 0 <= i < h.len() && #[trigger] h[i].0 == name;
        assert(all[i].0 == name);
    }
    if added.0 == name {
        assert(all[h.len() as int].0 == name);
    }
    if has_header(all, name) {
        let i = choose|i: int| 0 <= i < all.len() && #[trigger] all[i].0 == name;
        assert(i < h.len() ==> h[i].0 == name);
    }
}

fn push_header(headers: &mut Vec<(String, String)>, name: &str, value: &str)
    ensures
        headers_view(final(headers)@) == headers_view(old(headers)@).push((name@, value@)),
{
    let ghost before = headers@;
    headers.push((name.to_string(), value.to_string()));
    assert(headers_view(headers@) =~= headers_view(before).push((name@, value@)));
}

/// The request that fetches something from `host`.
pub fn request_for_host(
    host: &str,
    method: &str,
    body: Option<&str>,
    headers: &Vec<(String, String)>,
) -> (res: Request)
    ensures
        res.method@ == method_text(method@),
        headers_view(res.headers@) == request_headers(host@, headers_view(headers@), body is Some),
        match (res.body, body) {
            (Some(b), Some(asked)) => b@ == asked@,
            (None, None) => true,
            _ => false,
        },
{
    let method = match known_method(method) {
        Some(known) => known,
        None => "GET".to_string(),
    };
    let mut list: Vec<(String, String)> = Vec::new();
    push_header(&mut list, "accept", ACCEPT);
    push_header(&mut list, "user-agent", ua_for_host(host));
    if let Some(cookie) = consent_cookie_for_host(host) {
        push_header(&mut list, "cookie", cookie);
    }
    assert(headers_view(list@) =~= own_headers(host@));
    let mut has_content_type = false;
    let mut i: usize = 0;
    let ghost asked = headers_view(headers@);
    assert(own_headers(host@) + sent(asked.take(0)) =~= own_headers(host@));
    while i < headers.len()
        invariant
            i <= headers.len(),
            asked == headers_view(headers@),
            headers_view(list@) == own_headers(host@) + sent(asked.take(i as int)),
            has_content_type == has_header(sent(asked.take(i as int)), "content-type"@),
        decreases headers.len() - i,
    {
        let ghost now = sent(asked.take(i as int));
        let ghost next = sent(asked.take(i + 1));
        proof {
            assert(asked.take(i + 1).drop_last() == asked.take(i as int));
            assert(asked.take(i + 1).last() == asked[i as int]);
            assert(asked[i as int] == (headers@[i as int].0@, headers@[i as int].1@));
        }
        if let Some(name) = header_name(headers[i].0.as_str()) {
            if !is_forbidden_request_header(name.as_str()) && accepts_value(headers[i].1.as_str()) {
                proof {
                    lemma_has_header_push(
                        now,
                        (lowercase(asked[i as int].0), asked[i as int].1),
                        "content-type"@,
                    );
                }
                if text_eq(name.as_str(), "content-type") {
                    has_content_type = true;
                }
                push_header(&mut list, name.as_str(), headers[i].1.as_str());
                assert(headers_view(list@) =~= own_headers(host@) + next);
            }
        }
        i = i + 1;
    }
    assert(asked.take(i as int) == asked);
    match body {
        Some(text) => {
            if !has_content_type {
                push_header(&mut list, "content-type", "application/json");
            }
            Request { method, headers: list, body: Some(text.to_string()) }
        },
        None => Request { method, headers: list, body: None },
    }
}

/// The request that fetches `url`.
pub fn request_for(
    url: &str,
    method: &str,
    body: Option<&str>,
    headers: &Vec<(String, String)>,
) -> (res: Request)
    ensures
        res.method@ == method_text(method@),
        headers_view(res.headers@) == request_headers(
            text_or_empty(url_host(url@)),
            headers_view(headers@),
            body is Some,
        ),
        match (res.body, body) {
            (Some(b), Some(asked)) => b@ == asked@,
            (None, None) => true,
            _ => false,
        },
{
    let host = host_of(url);
    request_for_host(host.as_str(), method, body, headers)
}

/// When the last requests to the throttled hosts go out, in nanoseconds. That
/// can lie in the future: a request that has to wait keeps its turn.
#[derive(Clone, Copy, Debug, PartialEq, Eq)]
pub struct RateLimiter {
    pub upload_wikimedia: Option<u64>,
    pub en_wikipedia: Option<u64>,
}

/// How long a request waits at `now` when the one before it goes out at `last`.
pub open spec fn wait_after(last: Option<u64>, now: u64) -> int {
    match last {
        None => 0,
        Some(l) => if now < l + REQUEST_INTERVAL {
            l + REQUEST_INTERVAL - now
        } else {
            0
        },
    }
}

fn wait(last: Option<u64>, now: u64) -> (res: u64)
    requires
        now + wait_after(last, now) <= u64::MAX,
    ensures
        res == wait_after(last, now),
{
    match last {
        None => 0,
        Some(l) => if now < l + REQUEST_INTERVAL {
            l + REQUEST_INTERVAL - now
        } else {
            0
        },
    }
}

impl RateLimiter {
    /// No request has gone out yet.
    pub fn new() -> (res: Self)
        ensures
            res.upload_wikimedia is None,
            res.en_wikipedia is None,
    {
        RateLimiter { upload_wikimedia: None, en_wikipedia: None }
    }

    /// Takes note of a request to `host` at `now`; the result says how long it
    /// has to wait. Other hosts than the two throttled ones never wait.
    pub fn pace_host(&mut self, host: &str, now: u64) -> (res: u64)
        requires
            now + old(self).waits(host@, now) <= u64::MAX,
        ensures
            res == old(self).waits(host@, now),
            *final(self) == old(self).paced(host@, now),
    {
        if text_eq(host, "upload.wikimedia.org") {
            let sleep = wait(self.upload_wikimedia, now);
            self.upload_wikimedia = Some(now + sleep);
            sleep
        } else if text_eq(host, "en.wikipedia.org") {
            let sleep = wait(self.en_wikipedia, now);
            self.en_wikipedia = Some(now + sleep);
            sleep
        } else {
            0
        }
    }

    /// Takes note of a request for `url` at `now`; the result says how long it
    /// has to wait.
    pub fn pace(&mut self, url: &str, now: u64) -> (res: u64)
        requires
            forall|host: Seq<char>| now + #[trigger] old(self).waits(host, now) <= u64::MAX,
        ensures
            res == old(self).waits(text_or_empty(url_host(url@)), now),
            *final(self) == old(self).paced(text_or_empty(url_host(url@)), now),
    {
        let host = host_of(url);
        self.pace_host(host.as_str(), now)
    }

    /// How long a request to `host` at `now` waits.
    pub open spec fn waits(self, host: Seq<char>, now: u64) -> int {
        if host == "upload.wikimedia.org"@ {
            wait_after(self.upload_wikimedia, now)
        } else if host == "en.wikipedia.org"@ {
            wait_after(self.en_wikipedia, now)
        } else {
            0
        }
    }

    /// The limiter after a request to `host` at `now`.
    pub open spec fn paced(self, host: Seq<char>, now: u64) -> RateLimiter {
        if host == "upload.wikimedia.org"@ {
            RateLimiter {
                upload_wikimedia: Some((now + wait_after(self.upload_wikimedia, now)) as u64),
                ..self
            }
        } else if host == "en.wikipedia.org"@ {
            RateLimiter {
                en_wikipedia: Some((now + wait_after(self.en_wikipedia, now)) as u64),
                ..self
            }
        } else {
            self
        }
    }
}

/// Whether `b` is a visible ASCII character, the space or the tab.
pub open spec fn is_visible(b: u8) -> bool {
    32 <= b < 127 || b == 9
}

/// Whether a header value is text.
pub open spec fn is_text_value(bytes: Seq<u8>) -> bool {
    forall|i: int| 0 <= i < bytes.len() ==> is_visible(#[trigger] bytes[i])
}

/// The characters of a header value that is text.
pub open spec fn ascii_text(bytes: Seq<u8>) -> Seq<char> {
    bytes.map_values(|b: u8| b as char)
}

/// A received header: its name, and its value as it came over the wire.
pub open spec fn raw_view(h: Seq<(String, Vec<u8>)>) -> Seq<(Seq<char>, Seq<u8>)> {
    h.map_values(|e: (String, Vec<u8>)| (e.0@, e.1@))
}

/// The headers whose values are text, in their order.
pub open spec fn readable(h: Seq<(Seq<char>, Seq<u8>)>) -> Seq<Header>
    decreases h.len(),
{
    if h.len() == 0 {
        Seq::empty()
    } else if is_text_value(h.last().1) {
        readable(h.drop_last()).push((h.last().0, ascii_text(h.last().1)))
    } else {
        readable(h.drop_last())
    }
}

/// The text of a header value, if it is text.
fn value_text(bytes: &Vec<u8>) -> (res: Option<String>)
    ensures
        match res {
            Some(text) => is_text_value(bytes@) && text@ == ascii_text(bytes@),
            None => !is_text_value(bytes@),
        },
{
    let mut text = String::new();
    let mut i: usize = 0;
    while i < bytes.len()
        invariant
            i <= bytes.len(),
            is_text_value(bytes@.take(i as int)),
            text@ == ascii_text(bytes@.take(i as int)),
        decreases bytes.len() - i,
    {
        let b = bytes[i];
        if !((32 <= b && b < 127) || b == 9) {
            assert(!is_visible(bytes@[i as int]));
            return None;
        }
        let ghost before = text@;
        text.push(b as char);
        proof {
            assert(text@ =~= ascii_text(bytes@.take(i + 1)));
            assert forall|j: int| 0 <= j < i + 1 implies is_visible(
                #[trigger] bytes@.take(i + 1)[j],
            ) by {
                if j < i {
                    assert(bytes@.take(i as int)[j] == bytes@[j]);
                }
            }
        }
        i = i + 1;
    }
    assert(bytes@.take(i as int) == bytes@);
    Some(text)
}

/// The response that a status with its reason phrase, the headers as they came
/// and a body make up.
pub fn response_with_reason(
    status: u16,
    reason: Option<String>,
    headers: &Vec<(String, Vec<u8>)>,
    body: Vec<u8>,
) -> (res: HttpResponse)
    ensures
        res.status == status,
        res.status_text@ == (match reason {
            Some(text) => text@,
            None => Seq::empty(),
        }),
        headers_view(res.headers@) == readable(raw_view(headers@)),
        res.body == body,
{
    let status_text = match reason {
        Some(text) => text,
        None => String::new(),
    };
    let mut list: Vec<(String, String)> = Vec::new();
    let mut i: usize = 0;
    let ghost raw = raw_view(headers@);
    assert(headers_view(list@) =~= readable(raw.take(0)));
    while i < headers.len()
        invariant
            i <= headers.len(),
            raw == raw_view(headers@),
            headers_view(list@) == readable(raw.take(i as int)),
        decreases headers.len() - i,
    {
        proof {
            assert(raw.take(i + 1).drop_last() == raw.take(i as int));
            assert(raw.take(i + 1).last() == raw[i as int]);
            assert(raw[i as int] == (headers@[i as int].0@, headers@[i as int].1@));
        }
        if let Some(text) = value_text(&headers[i].1) {
            push_header(&mut list, headers[i].0.as_str(), text.as_str());
        }
        i = i + 1;
    }
    assert(raw.take(i as int) == raw);
    HttpResponse { status, status_text, headers: list, body }
}

/// The response that a status, the headers as they came and a body make up.
pub fn response_of(status: u16, headers: &Vec<(String, Vec<u8>)>, body: Vec<u8>) -> (res:
    HttpResponse)
    ensures
        res.status == status,
        res.status_text@ == text_or_empty(status_reason(status)),
        headers_view(res.headers@) == readable(raw_view(headers@)),
        res.body == body,
{
    let reason = canonical_reason(status);
    response_with_reason(status, reason, headers, body)
}

/// The body of a response with a success status.
pub fn success_body(response: HttpResponse) -> (res: Result<Vec<u8>, FetchError>)
    ensures
        match res {
            Ok(body) => 200 <= response.status < 300 && body == response.body,
            Err(e) => !(200 <= response.status < 300) && e == FetchError::HttpStatus(
                response.status,
                response.status_text,
            ),
        },
{
    if response.status < 200 || response.status >= 300 {
        return Err(FetchError::HttpStatus(response.status, response.status_text));
    }
    Ok(response.body)
}

/// A fetched body as text.
pub fn body_text(body: Result<Vec<u8>, FetchError>) -> (res: Result<String, FetchError>)
    ensures
        match body {
            Ok(bytes) => res matches Ok(text) && text@ == lossy_text(bytes@),
            Err(e) => res == Err::<String, FetchError>(e),
        },
{
    match body {
        Ok(bytes) => Ok(from_utf8_lossy(&bytes)),
        Err(e) => Err(e),
    }
}

proof fn lemma_sent(h: Seq<Header>, i: int)
    requires
        0 <= i < sent(h).len(),
    ensures
        !is_forbidden(sent(h)[i].0),
        exists|j: int|
            0 <= j < h.len() && sent(h)[i] == (lowercase((#[trigger] h[j]).0), h[j].1),
    decreases h.len(),
{
    let front = sent(h.drop_last());
    if i < front.len() {
        lemma_sent(h.drop_last(), i);
        let j = choose|j: int|
            0 <= j < h.drop_last().len() && front[i] == (
                lowercase((#[trigger] h.drop_last()[j]).0),
                h.drop_last()[j].1,
            );
        assert(sent(h)[i] == (lowercase(h[j].0), h[j].1));
    } else {
        assert(sent(h)[i] == (lowercase(h[h.len() - 1].0), h[h.len() - 1].1));
    }
}

/// Whatever headers a script asks for, the ones that belong to the transport
/// stay the engine's: a request carries one user agent, the engine's, and its
/// only cookies are the engine's.
pub proof fn law_scripts_cannot_set_transport_headers(
    host: Seq<char>,
    asked: Seq<Header>,
    has_body: bool,
    i: int,
)
    requires
        0 <= i < request_headers(host, asked, has_body).len(),
        is_forbidden(request_headers(host, asked, has_body)[i].0),
    ensures
        i < own_headers(host).len(),
        request_headers(host, asked, has_body)[i] == own_headers(host)[i],
{
    let own = own_headers(host);
    let all = own + sent(asked);
    if i >= own.len() {
        if i < all.len() {
            lemma_sent(asked, i - own.len());
            assert(all[i] == sent(asked)[i - own.len()]);
        } else {
            reveal_strlit("content-type");
            reveal_strlit("host");
            reveal_strlit("content-length");
            reveal_strlit("user-agent");
            reveal_strlit("accept-encoding");
            reveal_strlit("connection");
            reveal_strlit("cookie");
            reveal_strlit("origin");
            reveal_strlit("referer");
            reveal_strlit("set-cookie");
            reveal_strlit("te");
            reveal_strlit("trailer");
            reveal_strlit("transfer-encoding");
            reveal_strlit("upgrade");
            reveal_strlit("proxy-");
            reveal_strlit("sec-");
            let name = "content-type"@;
            assert(name.len() == 12);
            assert(name[0] == 'c');
            assert(name[1] == 'o');
            assert(!has_prefix(name, "proxy-"@)) by {
                assert("proxy-"@[0] == 'p');
            }
            assert(!has_prefix(name, "sec-"@)) by {
                assert("sec-"@[0] == 's');
            }
        }
    }
}

/// A request to one host makes no request to another one wait.
pub proof fn law_hosts_are_paced_apart(
    limiter: RateLimiter,
    host: Seq<char>,
    other: Seq<char>,
    first: u64,
    second: u64,
)
    requires
        host != other,
    ensures
        limiter.paced(host, first).waits(other, second) == limiter.waits(other, second),
{
}

/// Requests to a throttled host go out at least the interval apart, whenever
/// they are made, at the same instant too.
pub proof fn law_throttled_requests_keep_their_distance(
    limiter: RateLimiter,
    host: Seq<char>,
    first: u64,
    second: u64,
)
    requires
        host == "upload.wikimedia.org"@ || host == "en.wikipedia.org"@,
        first + limiter.waits(host, first) <= u64::MAX,
    ensures
        second + limiter.paced(host, first).waits(host, second) - (first + limiter.waits(
            host,
            first,
        )) >= REQUEST_INTERVAL,
{
}

} // verus!
