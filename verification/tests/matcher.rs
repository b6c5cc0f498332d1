//! Exact, structural and smart-swap lookup, sequences and URI shapes.
use gostly::io::ServiceMocks;
use gostly::matcher::find_exact;
use gostly::matcher::find_sequence_response;
use gostly::matcher::find_smart_swap;
use gostly::matcher::find_structural;
use gostly::matcher::is_dynamic_segment;
use gostly::matcher::normalize_uri;
use gostly::matcher::paths_match;
use gostly::ordmap::OrdMap;
use gostly::types::MockEntry;
use gostly::types::MockRequest;
use gostly::types::MockResponse;
use gostly::types::MockSequence;
use gostly::types::SequenceResponse;
use gostly::types::GLOBAL_TENANT;

fn to_service_mocks(entries: Vec<MockEntry>) -> ServiceMocks {
    let mut mocks = ServiceMocks::new();
    for e in entries {
        mocks.insert((e.request.method.clone(), e.request.uri.clone(), e.tenant.clone()), e);
    }
    mocks
}

fn mock(method: &str, uri: &str, req_body: &str, res_body: &str) -> MockEntry {
    MockEntry {
        id: format!("{method}:{uri}"),
        timestamp: "2024-01-01T00:00:00Z".to_string(),
        service_id: None,
        tenant: GLOBAL_TENANT.to_string(),
        request: MockRequest {
            method: method.to_string(),
            uri: uri.to_string(),
            body: req_body.to_string(),
        },
        response: MockResponse {
            status: 200,
            body: res_body.to_string(),
            headers: OrdMap::new(),
            latency_ms: 0,
        },
    }
}

fn seq(
    id: &str,
    method: &str,
    uri: &str,
    responses: Vec<SequenceResponse>,
    loop_responses: bool,
) -> MockSequence {
    MockSequence {
        id: id.to_string(),
        method: method.to_string(),
        uri: uri.to_string(),
        responses,
        loop_responses,
    }
}

fn seq_resp(status: u16, body: &str) -> SequenceResponse {
    SequenceResponse { status, body: body.to_string(), headers: OrdMap::new(), latency_ms: 0 }
}

#[test]
fn test_dynamic_numeric() {
    assert!(is_dynamic_segment("42"));
    assert!(is_dynamic_segment("1000000"));
    assert!(is_dynamic_segment("0"));
}

#[test]
fn test_dynamic_uuid() {
    assert!(is_dynamic_segment("550e8400-e29b-41d4-a716-446655440000"));
    assert!(is_dynamic_segment("ffffffff-ffff-ffff-ffff-ffffffffffff"));
}

#[test]
fn test_dynamic_mixed_slug() {
    assert!(is_dynamic_segment("abc123"));
    assert!(is_dynamic_segment("tok_a1b2c3"));
    assert!(is_dynamic_segment("user-42a"));
}

#[test]
fn test_static_alpha_only() {
    assert!(!is_dynamic_segment("users"));
    assert!(!is_dynamic_segment("profile"));
    assert!(!is_dynamic_segment("me"));
    assert!(!is_dynamic_segment("orders"));
}

#[test]
fn test_empty_segment_is_not_dynamic() {
    assert!(!is_dynamic_segment(""));
}

#[test]
fn test_normalize_no_query() {
    assert_eq!(normalize_uri("/users/42"), "/users/42");
}

#[test]
fn test_normalize_sorts_query_params() {
    let result = normalize_uri("/search?z=3&a=1&m=2");
    assert_eq!(result, "/search?a=1&m=2&z=3");
}

#[test]
fn test_normalize_already_sorted() {
    let result = normalize_uri("/items?a=1&b=2");
    assert_eq!(result, "/items?a=1&b=2");
}

#[test]
fn test_normalize_single_param() {
    assert_eq!(normalize_uri("/items?page=1"), "/items?page=1");
}

#[test]
fn test_paths_match_identical() {
    assert!(paths_match("/users/42", "/users/42"));
}

#[test]
fn test_paths_match_dynamic_recorded() {
    // Recorded has numeric ID; incoming has different ID
    assert!(paths_match("/users/42", "/users/99"));
}

#[test]
fn test_paths_match_different_depth() {
    assert!(!paths_match("/users/42", "/users/42/profile"));
}

#[test]
fn test_paths_match_static_mismatch() {
    // Static segments differ → no match
    assert!(!paths_match("/users/42", "/orders/42"));
}

#[test]
fn test_paths_match_ignores_query_string() {
    assert!(paths_match("/users/42?a=1", "/users/42?b=2"));
}

#[test]
fn test_find_exact_match() {
    let mocks = to_service_mocks(vec![mock("GET", "/users/1", "", r#"{"id":1}"#)]);
    let result = find_exact(&mocks, "GET", "/users/1", "");
    assert!(result.is_some());
    assert_eq!(result.unwrap().response.body, r#"{"id":1}"#);
}

#[test]
fn test_find_exact_no_match_wrong_method() {
    let mocks = to_service_mocks(vec![mock("GET", "/users/1", "", r#"{"id":1}"#)]);
    assert!(find_exact(&mocks, "POST", "/users/1", "").is_none());
}

#[test]
fn test_find_exact_no_match_wrong_uri() {
    let mocks = to_service_mocks(vec![mock("GET", "/users/1", "", r#"{"id":1}"#)]);
    assert!(find_exact(&mocks, "GET", "/users/2", "").is_none());
}

#[test]
fn test_find_exact_body_must_match() {
    let mocks = to_service_mocks(vec![mock("POST", "/login", r#"{"user":"alice"}"#, r#"{"token":"tok1"}"#)]);
    assert!(find_exact(&mocks, "POST", "/login", r#"{"user":"bob"}"#).is_none());
}

#[test]
fn test_find_exact_returns_last_recorded() {
    // HashMap insert — later entry with same key overwrites earlier
    let mocks = to_service_mocks(vec![
        mock("GET", "/items", "", r#"{"version":1}"#),
        mock("GET", "/items", "", r#"{"version":2}"#),
    ]);
    let result = find_exact(&mocks, "GET", "/items", "").unwrap();
    assert_eq!(result.response.body, r#"{"version":2}"#);
}

#[test]
fn test_smart_swap_id_substituted() {
    // Recorded: GET /users/1 → {"id":"1","name":"alice"}
    // Incoming: GET /users/2 → expect "1" swapped to "2" in response
    let mocks = vec![mock("GET", "/users/1", "", r#"{"id":"1","name":"alice"}"#)];
    let result = find_smart_swap(&mocks, "GET", "/users/2", "");
    assert!(result.is_some());
    let body = result.unwrap().response.body;
    let v: serde_json::Value = serde_json::from_str(&body).unwrap();
    assert_eq!(v["id"], "2");
    assert_eq!(v["name"], "alice");  // unchanged
}

#[test]
fn test_smart_swap_static_segment_change_returns_none() {
    // /users/1 → /orders/1: "users" vs "orders" are both static → None
    let mocks = vec![mock("GET", "/users/1", "", r#"{"id":"1"}"#)];
    assert!(find_smart_swap(&mocks, "GET", "/orders/1", "").is_none());
}

#[test]
fn test_smart_swap_no_evidence_no_substitution() {
    // ID "42" does NOT appear in the response body → no substitution
    // But URIs match structurally (42 is dynamic, 99 is dynamic)
    // With no substitutions and URIs differ → returns None
    let mocks = vec![mock("GET", "/users/42", "", r#"{"name":"alice"}"#)];
    let result = find_smart_swap(&mocks, "GET", "/users/99", "");
    // "42" not in response → no evidence → no substitution → None
    assert!(result.is_none());
}

#[test]
fn test_smart_swap_exact_match_returns_response() {
    // Exact match (same URI, same body) → still returns (subs is empty but URIs match)
    let mocks = vec![mock("GET", "/users/1", "", r#"{"id":"1"}"#)];
    let result = find_smart_swap(&mocks, "GET", "/users/1", "");
    assert!(result.is_some());
}

#[test]
fn test_sequence_advances_on_each_call() {
    let responses = vec![
        seq_resp(200, "first"),
        seq_resp(200, "second"),
        seq_resp(200, "third"),
    ];
    let seqs = vec![seq("s1", "GET", "/api", responses, false)];
    let mut counters = OrdMap::new();

    let r1 = find_sequence_response(&seqs, &mut counters, "GET", "/api").unwrap();
    let r2 = find_sequence_response(&seqs, &mut counters, "GET", "/api").unwrap();
    let r3 = find_sequence_response(&seqs, &mut counters, "GET", "/api").unwrap();

    assert_eq!(r1.body, "first");
    assert_eq!(r2.body, "second");
    assert_eq!(r3.body, "third");
}

#[test]
fn test_sequence_clamps_at_last_when_not_looping() {
    let responses = vec![seq_resp(200, "only"), seq_resp(200, "last")];
    let seqs = vec![seq("s2", "GET", "/api", responses, false)];
    let mut counters = OrdMap::new();

    find_sequence_response(&seqs, &mut counters, "GET", "/api");
    find_sequence_response(&seqs, &mut counters, "GET", "/api");
    // Third call beyond end — clamps to last
    let r = find_sequence_response(&seqs, &mut counters, "GET", "/api").unwrap();
    assert_eq!(r.body, "last");
}

#[test]
fn test_sequence_loops_when_loop_enabled() {
    let responses = vec![seq_resp(200, "a"), seq_resp(200, "b")];
    let seqs = vec![seq("s3", "GET", "/api", responses, true)];
    let mut counters = OrdMap::new();

    find_sequence_response(&seqs, &mut counters, "GET", "/api");  // a
    find_sequence_response(&seqs, &mut counters, "GET", "/api");  // b
    let r = find_sequence_response(&seqs, &mut counters, "GET", "/api").unwrap();  // wraps to a
    assert_eq!(r.body, "a");
}

#[test]
fn test_sequence_no_match_returns_none() {
    let seqs: Vec<MockSequence> = vec![];
    let mut counters = OrdMap::new();
    assert!(find_sequence_response(&seqs, &mut counters, "GET", "/missing").is_none());
}

#[test]
fn test_sequence_empty_responses_returns_none() {
    let seqs = vec![seq("s4", "GET", "/api", vec![], false)];
    let mut counters = OrdMap::new();
    assert!(find_sequence_response(&seqs, &mut counters, "GET", "/api").is_none());
}

#[test]
fn test_sequence_matches_by_path_shape() {
    // Sequence registered on /users/1, incoming /users/2 — paths_match via dynamic
    let responses = vec![seq_resp(200, "ok")];
    let seqs = vec![seq("s5", "GET", "/users/1", responses, false)];
    let mut counters = OrdMap::new();
    let r = find_sequence_response(&seqs, &mut counters, "GET", "/users/99");
    assert!(r.is_some());
}

#[test]
fn test_alpha_dynamic_single_digit() {
    assert!(is_dynamic_segment("0"));
    assert!(is_dynamic_segment("9"));
}

#[test]
fn test_alpha_dynamic_large_numeric_id() {
    assert!(is_dynamic_segment("9999999999"));
}

#[test]
fn test_alpha_dynamic_slug_with_underscores() {
    // Has digit + alpha + underscore — all_valid → dynamic
    assert!(is_dynamic_segment("svc_42a"));
}

#[test]
fn test_alpha_static_pure_alpha_with_hyphen() {
    // "my-service" — no digits → static
    assert!(!is_dynamic_segment("my-service"));
}

#[test]
fn test_alpha_static_pure_alpha_with_underscore() {
    // "user_profile" — no digits → static
    assert!(!is_dynamic_segment("user_profile"));
}

#[test]
fn test_alpha_dynamic_uuid_uppercase() {
    // UUID pattern is case-insensitive via all chars being hex — check with upper
    assert!(is_dynamic_segment("550E8400-E29B-41D4-A716-446655440000"));
}

#[test]
fn test_alpha_not_dynamic_wrong_uuid_group_count() {
    // 4 groups instead of 5 — not a UUID, and purely alpha → static
    assert!(!is_dynamic_segment("aaaa-bbbb-cccc-dddd"));
}

#[test]
fn test_alpha_dynamic_version_string_v1() {
    // "v1" — has both alpha and digit → classified as dynamic by current rule
    assert!(is_dynamic_segment("v1"));
}

#[test]
fn test_alpha_static_keyword_health() {
    assert!(!is_dynamic_segment("health"));
}

#[test]
fn test_alpha_static_keyword_api() {
    assert!(!is_dynamic_segment("api"));
}

#[test]
fn test_alpha_normalize_empty_query_string() {
    // URI ending with "?" but no params — treated as having an empty qs
    let result = normalize_uri("/items?");
    // Graceful: either passes through or normalises to "/items?"
    assert!(result.starts_with("/items"));
}

#[test]
fn test_alpha_normalize_param_without_value() {
    // "?flag" with no "=" sign — should not panic
    let result = normalize_uri("/items?flag");
    assert!(result.starts_with("/items"));
}

#[test]
fn test_alpha_normalize_preserves_path_with_dynamic_segment() {
    // Dynamic segments in path are not touched by normalize_uri
    let result = normalize_uri("/users/42?b=2&a=1");
    assert_eq!(result, "/users/42?a=1&b=2");
}

#[test]
fn test_alpha_normalize_duplicate_param_keys_preserved() {
    // Duplicate keys (e.g. multi-value params) — sort is stable across equal keys
    let result = normalize_uri("/search?tag=rust&tag=async");
    // Both "tag" params should be present after sort
    assert!(result.contains("tag=rust"));
    assert!(result.contains("tag=async"));
}

#[test]
fn test_alpha_paths_match_root() {
    assert!(paths_match("/", "/"));
}

#[test]
fn test_alpha_paths_match_empty_vs_empty() {
    assert!(paths_match("", ""));
}

#[test]
fn test_alpha_paths_match_different_query_strings_same_path() {
    // Query strings are stripped before comparison
    assert!(paths_match("/api/data?v=1", "/api/data?v=2"));
}

#[test]
fn test_alpha_paths_no_match_different_length_deeper() {
    assert!(!paths_match("/a/b", "/a/b/c"));
}

#[test]
fn test_alpha_paths_match_both_dynamic_different_values() {
    // /users/42 vs /users/99 — both "42" and "99" are numeric → dynamic on both sides
    assert!(paths_match("/users/42", "/users/99"));
}

#[test]
fn test_alpha_paths_no_match_static_vs_static_different_name() {
    assert!(!paths_match("/orders/history", "/orders/summary"));
}

#[test]
fn test_alpha_find_exact_empty_body_match() {
    let mocks = to_service_mocks(vec![mock("DELETE", "/items/1", "", r#"{"deleted":true}"#)]);
    let result = find_exact(&mocks, "DELETE", "/items/1", "");
    assert!(result.is_some());
}

#[test]
fn test_alpha_find_exact_method_case_sensitive() {
    let mocks = to_service_mocks(vec![mock("GET", "/items", "", r#"{}"#)]);
    assert!(find_exact(&mocks, "get", "/items", "").is_none());
}

#[test]
fn test_alpha_find_exact_multiple_methods_same_uri() {
    let mocks = to_service_mocks(vec![
        mock("GET",  "/items", "", r#"{"method":"GET"}"#),
        mock("POST", "/items", "", r#"{"method":"POST"}"#),
    ]);
    let get_result  = find_exact(&mocks, "GET",  "/items", "").unwrap();
    let post_result = find_exact(&mocks, "POST", "/items", "").unwrap();
    assert!(get_result.response.body.contains("GET"));
    assert!(post_result.response.body.contains("POST"));
}

#[test]
fn test_alpha_find_exact_body_whitespace_not_normalised() {
    let mocks = to_service_mocks(vec![mock("POST", "/data", r#"{"k":"v"}"#, "ok")]);
    assert!(find_exact(&mocks, "POST", "/data", r#"{ "k": "v" }"#).is_none());
}

#[test]
fn test_alpha_find_exact_empty_library_returns_none() {
    let mocks: ServiceMocks = ServiceMocks::new();
    assert!(find_exact(&mocks, "GET", "/anything", "").is_none());
}

#[test]
fn test_alpha_smart_swap_query_param_id_substituted() {
    // Recorded: GET /search?user_id=alice → {"name":"alice"}
    // Incoming: GET /search?user_id=bob → expect "alice" swapped to "bob"
    let mocks = vec![
        mock("GET", "/search?user_id=alice", "", r#"{"name":"alice"}"#),
    ];
    let result = find_smart_swap(&mocks, "GET", "/search?user_id=bob", "");
    assert!(result.is_some(), "should match via query param swap");
    let body: serde_json::Value =
        serde_json::from_str(&result.unwrap().response.body).unwrap();
    assert_eq!(body["name"], "bob");
}

#[test]
fn test_alpha_smart_swap_body_field_substituted() {
    // Recorded request body has "user_id":"u1"; response echoes it.
    // Incoming body has "user_id":"u2" — expect substitution.
    let recorded_body = r#"{"user_id":"u1"}"#;
    let recorded_resp = r#"{"user_id":"u1","status":"active"}"#;
    let mocks = vec![mock("POST", "/accounts", recorded_body, recorded_resp)];

    let incoming_body = r#"{"user_id":"u2"}"#;
    let result = find_smart_swap(&mocks, "POST", "/accounts", incoming_body);
    // "u1" appears in the response → substituted with "u2"
    if let Some(r) = result {
        let v: serde_json::Value = serde_json::from_str(&r.response.body).unwrap();
        assert_eq!(v["user_id"], "u2");
    }
    // If None is returned the test is inconclusive but should not panic
}

#[test]
fn test_alpha_smart_swap_depth_difference_returns_none() {
    // /users/1/profile vs /users/1 — different depths → paths_match fails → None
    let mocks = vec![mock("GET", "/users/1/profile", "", r#"{"id":"1"}"#)];
    assert!(find_smart_swap(&mocks, "GET", "/users/1", "").is_none());
}

#[test]
fn test_alpha_smart_swap_wrong_method_returns_none() {
    let mocks = vec![mock("GET", "/users/1", "", r#"{"id":"1"}"#)];
    assert!(find_smart_swap(&mocks, "POST", "/users/1", "").is_none());
}

#[test]
fn test_alpha_smart_swap_empty_library_returns_none() {
    let mocks: Vec<MockEntry> = vec![];
    assert!(find_smart_swap(&mocks, "GET", "/users/1", "").is_none());
}

#[test]
fn test_alpha_smart_swap_no_mutation_on_non_dynamic_diff() {
    // /api/users/1 vs /api/orders/1 — "users" and "orders" are static segments
    // that differ → must return None (not a swap, a different endpoint)
    let mocks = vec![mock("GET", "/api/users/1", "", r#"{"id":"1"}"#)];
    assert!(find_smart_swap(&mocks, "GET", "/api/orders/1", "").is_none());
}

#[test]
fn test_alpha_find_structural_exact_uri_wins() {
    let mocks = vec![
        mock("GET", "/users/1",   "", r#"{"id":"1"}"#),
        mock("GET", "/users/999", "", r#"{"id":"999"}"#),
    ];
    // Exact URI /users/999 should be returned (not /users/1)
    let result = find_structural(&mocks, "GET", "/users/999");
    assert!(result.is_some());
    assert!(result.unwrap().response.body.contains("999"));
}

#[test]
fn test_alpha_find_structural_falls_back_to_shape_match() {
    // No exact match for /users/42, but /users/1 matches by shape
    let mocks = vec![mock("GET", "/users/1", "", r#"{"id":"1"}"#)];
    let result = find_structural(&mocks, "GET", "/users/42");
    assert!(result.is_some());
}

#[test]
fn test_alpha_find_structural_wrong_method_returns_none() {
    let mocks = vec![mock("GET", "/users/1", "", r#"{"id":"1"}"#)];
    assert!(find_structural(&mocks, "DELETE", "/users/1").is_none());
}

#[test]
fn test_alpha_find_structural_empty_library_returns_none() {
    let mocks: Vec<MockEntry> = vec![];
    assert!(find_structural(&mocks, "GET", "/users/1").is_none());
}

#[test]
fn test_alpha_sequence_single_response_always_returns_it() {
    let seqs = vec![seq("s1", "GET", "/api", vec![seq_resp(200, "only")], false)];
    let mut counters = OrdMap::new();
    for _ in 0..5 {
        let r = find_sequence_response(&seqs, &mut counters, "GET", "/api").unwrap();
        assert_eq!(r.body, "only");
    }
}

#[test]
fn test_alpha_sequence_different_method_no_match() {
    let seqs = vec![seq("s2", "GET", "/api", vec![seq_resp(200, "ok")], false)];
    let mut counters = OrdMap::new();
    assert!(find_sequence_response(&seqs, &mut counters, "POST", "/api").is_none());
}

#[test]
fn test_alpha_sequence_independent_counters_per_sequence_id() {
    let s1 = seq("s1", "GET", "/a", vec![seq_resp(200, "a1"), seq_resp(200, "a2")], false);
    let s2 = seq("s2", "GET", "/b", vec![seq_resp(200, "b1"), seq_resp(200, "b2")], false);
    let seqs = vec![s1, s2];
    let mut counters = OrdMap::new();

    let r_a1 = find_sequence_response(&seqs, &mut counters, "GET", "/a").unwrap();
    let r_b1 = find_sequence_response(&seqs, &mut counters, "GET", "/b").unwrap();
    let r_a2 = find_sequence_response(&seqs, &mut counters, "GET", "/a").unwrap();
    let r_b2 = find_sequence_response(&seqs, &mut counters, "GET", "/b").unwrap();

    assert_eq!(r_a1.body, "a1");
    assert_eq!(r_b1.body, "b1");
    assert_eq!(r_a2.body, "a2");
    assert_eq!(r_b2.body, "b2");
}

#[test]
fn test_alpha_sequence_loop_full_rotation() {
    // 3-item looping sequence: verify full cycle a→b→c→a→b→c
    let seqs = vec![seq(
        "s3",
        "GET",
        "/cycle",
        vec![seq_resp(200, "a"), seq_resp(200, "b"), seq_resp(200, "c")],
        true,
    )];
    let mut counters = OrdMap::new();
    let expected = ["a", "b", "c", "a", "b", "c"];
    for exp in &expected {
        let r = find_sequence_response(&seqs, &mut counters, "GET", "/cycle").unwrap();
        assert_eq!(&r.body, exp);
    }
}

#[test]
fn test_alpha_sequence_non_200_status_codes_preserved() {
    let seqs = vec![seq(
        "s4",
        "GET",
        "/status",
        vec![seq_resp(200, "ok"), seq_resp(429, "rate limited"), seq_resp(503, "down")],
        false,
    )];
    let mut counters = OrdMap::new();

    let r1 = find_sequence_response(&seqs, &mut counters, "GET", "/status").unwrap();
    let r2 = find_sequence_response(&seqs, &mut counters, "GET", "/status").unwrap();
    let r3 = find_sequence_response(&seqs, &mut counters, "GET", "/status").unwrap();

    assert_eq!(r1.status, 200);
    assert_eq!(r2.status, 429);
    assert_eq!(r3.status, 503);
}

#[test]
fn test_alpha_smart_swap_no_substring_corruption() {
    // Recorded URI: /tokens/tok1 → response contains "tok1" and "tok10" as separate fields.
    // Incoming URI: /tokens/tok2 — must NOT corrupt "tok10" → "tok20".
    let mocks = vec![mock(
        "GET",
        "/tokens/tok1",
        "",
        r#"{"short":"tok1","long":"tok10","other":"no_match"}"#,
    )];
    let result = find_smart_swap(&mocks, "GET", "/tokens/tok2", "");
    assert!(result.is_some(), "structural match should succeed");
    let body: serde_json::Value =
        serde_json::from_str(&result.unwrap().response.body).unwrap();
    // "short" should be substituted
    assert_eq!(body["short"], "tok2");
    // "long" contains "tok10" — JSON-aware substitution only replaces exact string values,
    // so the whole string "tok10" != "tok1" and must remain unchanged.
    assert_eq!(body["long"], "tok10");
}
