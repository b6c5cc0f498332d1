//! Built responses and header rules.
use gostly::chaos::DrawnError;
use gostly::headers::is_forwarded;
use gostly::headers::is_hop_by_hop;
use gostly::headers::RequestHeaders;
use gostly::ordmap::OrdMap;
use gostly::responses::build_response;
use gostly::responses::chaos_response;
use gostly::responses::miss_response;
use gostly::responses::serve_mock_response;
use gostly::responses::transitioning_response;
use gostly::types::RuntimeConfig;

fn headers(pairs: &[(&str, &str)]) -> OrdMap<String, String> {
    let mut m = OrdMap::new();
    for (k, v) in pairs {
        m.insert(k.to_string(), v.to_string());
    }
    m
}

#[test]
fn build_response_invalid_status_falls_back_to_200() {
    let resp = build_response(0, &headers(&[]), b"hi".to_vec());
    assert_eq!(resp.status, 200);
    let resp2 = build_response(99, &headers(&[]), b"".to_vec());
    assert_eq!(resp2.status, 200);
    assert_eq!(build_response(1000, &headers(&[]), b"".to_vec()).status, 200);
    assert_eq!(build_response(100, &headers(&[]), b"".to_vec()).status, 100);
    assert_eq!(build_response(999, &headers(&[]), b"".to_vec()).status, 999);
}

#[test]
fn build_response_strips_hop_by_hop_headers() {
    let h = headers(&[
        ("Transfer-Encoding", "chunked"),
        ("Connection", "keep-alive"),
        ("keep-alive", "timeout=5"),
        ("X-Real-Header", "ok"),
    ]);
    let resp = build_response(200, &h, b"".to_vec());
    assert!(resp.header("transfer-encoding").is_none());
    assert!(resp.header("connection").is_none());
    assert!(resp.header("keep-alive").is_none());
    assert_eq!(resp.header("x-real-header").as_deref(), Some("ok"));
}

#[test]
fn build_response_skips_headers_with_invalid_bytes() {
    let h = headers(&[("X-Bad", "evil\0value"), ("X-Good", "fine")]);
    let resp = build_response(201, &h, b"body".to_vec());
    assert_eq!(resp.status, 201);
    assert!(resp.header("x-bad").is_none());
    assert_eq!(resp.header("x-good").as_deref(), Some("fine"));
    assert_eq!(resp.body, b"body".to_vec());
}

#[test]
fn build_response_returns_200_for_valid_status() {
    let resp = build_response(204, &headers(&[]), b"".to_vec());
    assert_eq!(resp.status, 204);
}

#[test]
fn header_values_hold_anything_but_control_characters() {
    for good in ["", "a b", "tab\there", "gr\u{fc}n", "~"] {
        let r = build_response(200, &headers(&[("x", good)]), vec![]);
        assert_eq!(r.header("x").as_deref(), Some(good), "{good:?}");
    }
    for bad in ["a\nb", "a\rb", "\u{7f}", "\u{1}"] {
        let r = build_response(200, &headers(&[("x", bad)]), vec![]);
        assert!(r.header("x").is_none(), "{bad:?}");
    }
}

#[test]
fn invalid_header_name_leaves_an_empty_response() {
    for bad in ["", "a b", "a:b", "gr\u{fc}n", "a\"b", "a(b"] {
        let r = build_response(503, &headers(&[(bad, "v"), ("ok", "v")]), b"x".to_vec());
        assert_eq!(r.status, 200, "{bad:?}");
        assert!(r.headers.is_empty());
        assert!(r.body.is_empty());
    }
    let all = "!#$%&'*+-.^_`|~09azAZ";
    let r = build_response(503, &headers(&[(all, "v")]), vec![]);
    assert_eq!(r.status, 503);
    assert_eq!(r.header("!#$%&'*+-.^_`|~09azaz").as_deref(), Some("v"));
}

#[test]
fn invalid_name_with_an_invalid_value_is_left_out() {
    let r = build_response(503, &headers(&[("a b", "x\ny")]), b"x".to_vec());
    assert_eq!(r.status, 503);
    assert!(r.headers.is_empty());
}

#[test]
fn serve_mock_response_appends_extra_header() {
    let resp = serve_mock_response(200, &headers(&[]), b"x".to_vec(), 0, "x-mock-source", "library");
    assert_eq!(resp.header("x-mock-source").as_deref(), Some("library"));
}

#[test]
fn serve_mock_response_clamps_extra_header_to_safe_fallback() {
    let resp =
        serve_mock_response(200, &headers(&[]), b"x".to_vec(), 0, "x-mock-source", "evil\nvalue");
    assert_eq!(resp.header("x-mock-source").as_deref(), Some("true"));
}

#[test]
fn serve_mock_response_caps_latency_at_10_seconds() {
    let resp = serve_mock_response(200, &headers(&[]), b"".to_vec(), 0, "x-mock-source", "test");
    assert_eq!(resp.delay_ms, 0);
    assert_eq!(resp.status, 200);
    let late =
        serve_mock_response(200, &headers(&[]), b"".to_vec(), 3_600_000, "x-mock-source", "test");
    assert_eq!(late.delay_ms, 10_000);
    let some = serve_mock_response(200, &headers(&[]), b"".to_vec(), 25, "x-mock-source", "test");
    assert_eq!(some.delay_ms, 25);
}

#[test]
fn extra_header_replaces_the_recorded_one() {
    let h = headers(&[("X-Ghost-Mock", "false"), ("x-ghost-mock", "no"), ("A", "b")]);
    let r = serve_mock_response(200, &h, vec![], 0, "X-Ghost-Mock", "true");
    assert_eq!(r.headers.len(), 2);
    assert_eq!(r.header("x-ghost-mock").as_deref(), Some("true"));
    assert_eq!(r.header("a").as_deref(), Some("b"));
}

#[test]
fn miss_has_the_configured_answer() {
    let mut c = RuntimeConfig::new();
    let r = miss_response(&c);
    assert_eq!(r.status, 404);
    assert_eq!(r.header("x-ghost-miss").as_deref(), Some("true"));
    assert_eq!(r.header("content-type").as_deref(), Some("application/json"));
    assert!(String::from_utf8(r.body).unwrap().contains("no mock found"));
    c.update(Some(418), Some("teapot".to_string()));
    let r = miss_response(&c);
    assert_eq!(r.status, 418);
    assert_eq!(r.body, b"teapot".to_vec());
    c.update(Some(42), None);
    let r = miss_response(&c);
    assert_eq!(r.status, 404);
    assert_eq!(r.body, b"teapot".to_vec());
}

#[test]
fn transitioning_asks_for_a_retry() {
    let r = transitioning_response();
    assert_eq!(r.status, 503);
    assert_eq!(r.header("retry-after").as_deref(), Some("5"));
    assert_eq!(r.header("x-ghost-transitioning").as_deref(), Some("true"));
    assert_eq!(
        String::from_utf8(r.body).unwrap(),
        r#"{"status":"transitioning","message":"Proxy is processing recorded traffic. Retry in a few seconds.","retry_after":5}"#
    );
}

#[test]
fn injected_error_carries_its_headers() {
    let e = DrawnError {
        status: 429,
        body: "slow down".to_string(),
        headers: headers(&[("Retry-After", "3")]),
    };
    let (r, status) = chaos_response(&e);
    assert_eq!(status, 429);
    assert_eq!(r.status, 429);
    assert_eq!(r.header("x-ghost-chaos").as_deref(), Some("true"));
    assert_eq!(r.header("content-type").as_deref(), Some("application/json"));
    assert_eq!(r.header("retry-after").as_deref(), Some("3"));
    assert_eq!(r.body, b"slow down".to_vec());
}

#[test]
fn injected_error_with_an_invalid_header_is_an_empty_500() {
    for (k, v) in [("a b", "v"), ("ok", "a\nb")] {
        let e = DrawnError { status: 429, body: "x".to_string(), headers: headers(&[(k, v)]) };
        let (r, status) = chaos_response(&e);
        assert_eq!(status, 500);
        assert_eq!(r.status, 500);
        assert_eq!(r.headers.len(), 2);
        assert!(r.body.is_empty());
    }
}

#[test]
fn injected_error_with_an_invalid_status_is_a_500() {
    let e = DrawnError { status: 7, body: "x".to_string(), headers: headers(&[]) };
    let (r, status) = chaos_response(&e);
    assert_eq!(status, 7);
    assert_eq!(r.status, 500);
    assert_eq!(r.body, b"x".to_vec());
}

#[test]
fn forwarded_headers() {
    assert!(is_hop_by_hop("transfer-encoding"));
    assert!(!is_hop_by_hop("host"));
    for name in ["host", "transfer-encoding", "connection", "keep-alive"] {
        assert!(!is_forwarded(name));
    }
    assert!(is_forwarded("authorization"));
}

#[test]
fn first_request_header_counts() {
    let mut h = RequestHeaders::new();
    h.push("a", None);
    h.push("a", Some("1"));
    h.push("b", Some("X"));
    assert!(h.contains("a"));
    assert_eq!(h.text("a"), None);
    assert_eq!(h.text("b").as_deref(), Some("X"));
    assert!(h.value_is("b", "x"));
    assert!(!h.value_is("a", "1"));
    assert!(!h.contains("c"));
}
