//! Requests, their pacing, and responses.

use aurora::fetch::http::{body_text, consent_cookie_for, consent_cookie_for_host,
    is_forbidden_request_header, request_for, request_for_host, response_of, response_with_reason,
    success_body, ua_for, ua_for_host, ACCEPT, AURORA_UA, CHROME_UA, CONSENT_COOKIE, FetchError,
    RateLimiter, Request, REQUEST_INTERVAL};
use reqwest::header::HeaderName;

#[test]
fn script_request_headers_respect_the_browser_security_boundary(
) -> Result<(), reqwest::header::InvalidHeaderName> {
    for allowed in [
        "content-type",
        "x-youtube-client-name",
        "x-youtube-client-version",
        "x-goog-visitor-id",
        "authorization",
    ] {
        let name = HeaderName::from_bytes(allowed.as_bytes())?;
        assert!(!is_forbidden_request_header(name.as_str()), "{allowed}");
    }
    for forbidden in [
        "host",
        "content-length",
        "cookie",
        "origin",
        "referer",
        "sec-fetch-site",
        "user-agent",
    ] {
        let name = HeaderName::from_bytes(forbidden.as_bytes())?;
        assert!(is_forbidden_request_header(name.as_str()), "{forbidden}");
    }
    Ok(())
}

fn header<'a>(request: &'a Request, name: &str) -> Option<&'a str> {
    request.headers.iter().find(|(n, _)| n == name).map(|(_, value)| value.as_str())
}

#[test]
fn the_user_agent_depends_on_the_host() {
    assert_eq!(ua_for_host("upload.wikimedia.org"), AURORA_UA);
    assert_eq!(ua_for_host("example.com"), CHROME_UA);
    assert_eq!(ua_for("https://en.wikipedia.org/wiki/Aurora"), AURORA_UA);
    assert_eq!(ua_for("https://example.com/wikipedia.org"), CHROME_UA);
    assert_eq!(ua_for("https://EN.WIKIPEDIA.ORG/"), AURORA_UA);
    assert_eq!(ua_for("not a url"), CHROME_UA);
}

#[test]
fn consent_is_only_given_where_it_is_asked_for() {
    assert_eq!(consent_cookie_for_host("www.youtube.com"), Some(CONSENT_COOKIE));
    assert_eq!(consent_cookie_for_host("example.com"), None);
    assert_eq!(consent_cookie_for("https://www.youtube.com/"), Some(CONSENT_COOKIE));
    assert_eq!(consent_cookie_for("https://example.com/"), None);
    assert_eq!(consent_cookie_for("::"), None);
}

#[test]
fn requests_carry_what_scripts_may_set() {
    let headers = vec![
        ("X-Custom".to_string(), "one".to_string()),
        ("Cookie".to_string(), "stolen".to_string()),
        ("bad name".to_string(), "x".to_string()),
        ("x-bad-value".to_string(), "a\nb".to_string()),
    ];
    let request = request_for("https://www.youtube.com/", "POST", Some("body"), &headers);
    assert_eq!(
        request.headers,
        vec![
            ("accept".to_string(), ACCEPT.to_string()),
            ("user-agent".to_string(), CHROME_UA.to_string()),
            ("cookie".to_string(), CONSENT_COOKIE.to_string()),
            ("x-custom".to_string(), "one".to_string()),
            ("content-type".to_string(), "application/json".to_string()),
        ],
    );
    assert_eq!(request.body.as_deref(), Some("body"));
    assert_eq!(request.method, "POST");

    let same = request_for_host("www.youtube.com", "POST", Some("body"), &headers);
    assert_eq!(same.method, request.method);
    assert_eq!(same.headers, request.headers);
    assert_eq!(same.body, request.body);
}

#[test]
fn a_given_content_type_is_kept() {
    let headers = vec![("Content-Type".to_string(), "text/plain".to_string())];
    let request = request_for_host("example.com", "POST", Some("body"), &headers);
    assert_eq!(header(&request, "content-type"), Some("text/plain"));
    assert_eq!(request.headers.len(), 3);
}

#[test]
fn methods_that_are_no_tokens_become_get() {
    let none = Vec::new();
    assert_eq!(request_for_host("a", "get", None, &none).method, "get");
    assert_eq!(request_for_host("a", "bad method", None, &none).method, "GET");
    assert_eq!(request_for_host("a", "", None, &none).method, "GET");
    assert_eq!(request_for_host("a", "DELETE", None, &none).method, "DELETE");
    assert_eq!(request_for_host("a", "GET", None, &none).body, None);
}

#[test]
fn throttled_hosts_are_paced() {
    let mut limiter = RateLimiter::new();
    assert_eq!(limiter.pace_host("en.wikipedia.org", 1_000), 0);
    assert_eq!(limiter.pace_host("en.wikipedia.org", 1_000), REQUEST_INTERVAL);
    assert_eq!(limiter.pace_host("upload.wikimedia.org", 1_000), 0);
    assert_eq!(limiter.pace_host("example.com", 1_000), 0);
    assert_eq!(limiter.pace_host("example.com", 1_000), 0);

    let mut limiter = RateLimiter::new();
    for turn in 0..4 {
        let wait = limiter.pace("https://upload.wikimedia.org/a.png", 1_000);
        assert_eq!(wait, turn * REQUEST_INTERVAL);
    }
    assert_eq!(limiter.pace_host("upload.wikimedia.org", 2_000), 4 * REQUEST_INTERVAL - 1_000);
    assert_eq!(limiter.pace_host("en.wikipedia.org", 2_000), 0);

    let mut limiter = RateLimiter::new();
    assert_eq!(limiter.pace("https://en.wikipedia.org/wiki/A", 0), 0);
    assert_eq!(limiter.pace("https://en.wikipedia.org/wiki/B", 50_000_000), 100_000_000);
    assert_eq!(limiter.pace("https://en.wikipedia.org/wiki/C", 500_000_000), 0);
    assert_eq!(limiter.pace("nonsense", 500_000_000), 0);
}

#[test]
fn responses_keep_headers_that_are_text() {
    let headers = vec![
        ("content-type".to_string(), b"text/html".to_vec()),
        ("x-odd".to_string(), vec![0xff]),
    ];
    let response = response_of(404, &headers, b"gone".to_vec());
    assert_eq!(response.status, 404);
    assert_eq!(response.status_text, "Not Found");
    assert_eq!(response.body, b"gone");
    assert!(response.headers.contains(&("content-type".to_string(), "text/html".to_string())));
    let odd = response_with_reason(799, None, &Vec::new(), Vec::new());
    assert_eq!(odd.status_text, "");
    assert_eq!(response_of(799, &Vec::new(), Vec::new()).status_text, "");
    assert_eq!(response_of(200, &Vec::new(), Vec::new()).status_text, "OK");
}

#[test]
fn only_successes_have_a_body() {
    let ok = response_of(204, &Vec::new(), b"x".to_vec());
    assert_eq!(success_body(ok).ok(), Some(b"x".to_vec()));
    let edge = response_of(300, &Vec::new(), Vec::new());
    match success_body(edge) {
        Err(FetchError::HttpStatus(status, text)) => {
            assert_eq!(status, 300);
            assert_eq!(text, "Multiple Choices");
        }
        _ => panic!("expected a status error"),
    }
    assert_eq!(body_text(Ok(vec![b'a', 0xff])).ok().as_deref(), Some("a\u{fffd}"));
    match body_text(Err(FetchError::Network("down".to_string()))) {
        Err(FetchError::Network(message)) => assert_eq!(message, "down"),
        _ => panic!("expected a network error"),
    }
}
