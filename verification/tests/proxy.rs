//! What the proxy does with requests.
use gostly::dup::Dup;
use gostly::files::parse_mode_file;
use gostly::io::load_all_service_mocks;
use gostly::io::reload_one_file;
use gostly::io::MockLibrary;
use gostly::ordmap::OrdMap;
use gostly::proxy::pass_through;
use gostly::proxy::Conclusion;
use gostly::proxy::Learned;
use gostly::proxy::MatchKind;
use gostly::proxy::ProxyState;
use gostly::proxy::Step;
use gostly::recording::redaction_list;
use gostly::recording::UpstreamReply;
use gostly::responses::ResponsePlan;
use gostly::routing::route_request;
use gostly::routing::RoutedRequest;
use gostly::routing::UpstreamRoute;
use gostly::telemetry::counter_names;
use gostly::telemetry::observation_names;
use gostly::timestamps::Timestamp;
use gostly::types::MockEntry;
use gostly::types::MockRequest;
use gostly::types::MockResponse;
use gostly::types::MockSequence;
use gostly::types::Mode;
use gostly::types::SequenceResponse;
use gostly::types::GLOBAL_TENANT;

struct Harness {
    state: ProxyState,
    library: MockLibrary,
    swap: bool,
}

fn harness(mode: Mode) -> Harness {
    Harness { state: ProxyState::new(mode, vec![]), library: MockLibrary::new(), swap: false }
}

fn mock(id: &str, uri: &str, body: &str, tenant: &str) -> MockEntry {
    MockEntry {
        id: id.to_string(),
        timestamp: "2026-05-04T00:00:00Z".to_string(),
        request: MockRequest {
            method: "GET".to_string(),
            uri: uri.to_string(),
            body: String::new(),
        },
        response: MockResponse {
            status: 200,
            headers: OrdMap::new(),
            body: body.to_string(),
            latency_ms: 0,
        },
        service_id: None,
        tenant: tenant.to_string(),
    }
}

fn route(value: &str, svc: &str, mode: Option<Mode>) -> UpstreamRoute {
    UpstreamRoute {
        routing_type: "path".to_string(),
        routing_value: value.to_string(),
        upstream_url: "http://up".to_string(),
        service_id: svc.to_string(),
        mode,
        chaos_config: None,
        redact_headers: vec![],
    }
}

fn reply(status: u16, body: &str) -> UpstreamReply {
    UpstreamReply {
        status,
        headers: vec![
            ("content-type".to_string(), Some("application/json".to_string())),
            ("set-cookie".to_string(), Some("s=1".to_string())),
        ],
        body: body.as_bytes().to_vec(),
        latency_ms: 12,
    }
}

impl Harness {
    fn request(&self, uri: &str, tenant: Option<&str>, body: &str) -> RoutedRequest {
        route_request(
            "GET",
            uri,
            "localhost",
            tenant,
            body.to_string(),
            self.state.mode,
            &self.state.routes,
            "http://default",
        )
    }

    fn decide(&mut self, uri: &str, tenant: Option<&str>) -> (Step, &'static str) {
        let req = self.request(uri, tenant, "");
        self.state.decide(&self.library, self.swap, &req)
    }

    fn get(&mut self, uri: &str, tenant: Option<&str>) -> ResponsePlan {
        match self.decide(uri, tenant).0 {
            Step::Reply(plan) => plan,
            Step::Forward(target, _) => panic!("forwarded to {target}"),
        }
    }

    fn learn(&mut self, uri: &str, tenant: Option<&str>, r: UpstreamReply) -> Learned {
        let req = self.request(uri, tenant, "");
        self.state.learn(&mut self.library, &req, 0, r, &redaction_list(None), 1_000_000, 0)
    }
}

fn conclude(h: &mut Harness, uri: &str, record: bool, r: Option<UpstreamReply>) -> Conclusion {
    let req = h.request(uri, None, "");
    h.state.conclude(&mut h.library, &req, record, 0, r, &redaction_list(None), 1_000_000, 0)
}

fn text(plan: &ResponsePlan) -> String {
    String::from_utf8(plan.body.clone()).unwrap()
}

#[test]
fn learn_get_forwards_to_upstream_and_returns_response() {
    let mut h = harness(Mode::Learn);
    match h.decide("/api/users/123", None) {
        (Step::Forward(target, record), label) => {
            assert_eq!(target, "http://default/api/users/123");
            assert!(record);
            assert_eq!(label, "learn");
        }
        _ => panic!("not forwarded"),
    }
    let l = h.learn("/api/users/123", None, reply(200, r#"{"id":123}"#));
    assert_eq!(l.response.status, 200);
    assert!(text(&l.response).contains("123"));
    // The client sees the header that is not recorded.
    assert_eq!(l.response.header("set-cookie").as_deref(), Some("s=1"));
    let stored = &l.entry.response.headers;
    assert_eq!(stored.get(&"set-cookie".to_string()).unwrap(), "[REDACTED]");
}

#[test]
fn learn_propagates_upstream_500_status() {
    let mut h = harness(Mode::Learn);
    let l = h.learn("/api/broken", None, reply(500, r#"{"error":"boom"}"#));
    assert_eq!(l.response.status, 500);
    assert!(text(&l.response).contains("boom"));
}

#[test]
fn learn_returns_502_when_upstream_unreachable() {
    let mut h = harness(Mode::Learn);
    h.state.set_upstreams(vec![route("/api", "deadsvc", None)]);
    match conclude(&mut h, "/api/dead", true, None) {
        Conclusion::Failed(plan) => {
            assert_eq!(plan.status, 502);
            assert!(plan.headers.is_empty() && plan.body.is_empty());
        }
        _ => panic!("a reply without an upstream"),
    }
    // Nothing was recorded or counted.
    assert_eq!(h.library.total_count(), 0);
    assert_eq!(h.state.logged, 0);
    let c = h.state.telemetry.counters();
    assert!(c.get(&counter_names::FIRST_REQUEST_PROXIED_TOTAL.to_string()).is_none());
}

#[test]
fn passthrough_returns_502_on_upstream_failure() {
    let mut h = harness(Mode::Passthrough);
    h.state.set_upstreams(vec![route("/api", "deadsvc", None)]);
    match conclude(&mut h, "/api/dead", false, None) {
        Conclusion::Failed(plan) => assert_eq!(plan.status, 502),
        _ => panic!("a reply without an upstream"),
    }
}

#[test]
fn replies_are_recorded_only_if_asked() {
    let mut h = harness(Mode::Passthrough);
    match conclude(&mut h, "/api/x", false, Some(reply(200, "a"))) {
        Conclusion::Passed(plan) => assert_eq!(text(&plan), "a"),
        _ => panic!("not handed on"),
    }
    assert_eq!(h.library.total_count(), 0);
    match conclude(&mut h, "/api/x", true, Some(reply(200, "a"))) {
        Conclusion::Recorded(l) => assert_eq!(text(&l.response), "a"),
        _ => panic!("not recorded"),
    }
    assert_eq!(h.library.total_count(), 1);
}

#[test]
fn tenant_parameter_is_forwarded() {
    let mut h = harness(Mode::Passthrough);
    match h.decide("/x?b=2&_tenant=a", None).0 {
        Step::Forward(target, record) => {
            assert_eq!(target, "http://default/x?_tenant=a&b=2");
            assert!(!record);
        }
        Step::Reply(_) => panic!("not forwarded"),
    }
    let req = h.request("/x?b=2&_tenant=a", None, "");
    assert_eq!(req.uri, "/x?b=2");
    assert_eq!(req.tenant, "a");
}

#[test]
fn recordings_are_found_beside_created_mocks() {
    let mut h = harness(Mode::Learn);
    h.state.set_upstreams(vec![route("/api", "orders", None)]);
    let mut created = mock("made", "/api/1", "made", GLOBAL_TENANT);
    created.service_id = Some("orders".to_string());
    h.library.create(created);
    h.learn("/api/1", None, reply(200, "recorded"));
    h.state.set_mode(Mode::Mock);
    assert_eq!(text(&h.get("/api/1", None)), "recorded");
}

#[test]
fn learn_records_mock_into_in_memory_index() {
    let mut h = harness(Mode::Learn);
    h.learn("/api/learnable", None, reply(200, r#"{"ok":true}"#));
    assert!(h.library.find_exact("_global", "GET", "/api/learnable", "_global").is_some());
}

#[test]
fn learn_logs_traffic_of_routed_services_only() {
    let mut h = harness(Mode::Learn);
    let l = h.learn("/x", None, reply(200, "a"));
    assert!(l.traffic.is_none());
    assert_eq!(l.service, "_global");
    assert_eq!(h.state.logged, 0);
    h.state.set_upstreams(vec![route("/x", "svc", None)]);
    let now = Timestamp { secs: 1_700_000_000, nanos: 5_000_000 };
    let req = h.request("/x", None, "");
    let l = h.state.learn_at(
        &mut h.library,
        &req,
        0,
        reply(200, "a"),
        &redaction_list(None),
        1,
        now,
        12.0f64.to_bits(),
    );
    assert_eq!(l.service, "svc");
    assert_eq!(l.at, now);
    assert_eq!(l.entry.id, "1700000000005");
    assert_eq!(l.entry.timestamp, "2023-11-14T22:13:20.005+00:00");
    assert_eq!(l.entry.service_id.as_deref(), Some("svc"));
    let t = l.traffic.unwrap();
    assert_eq!(t.id, "1700000000005_0");
    assert_eq!(t.response.latency_ms, 12);
    assert_eq!(h.state.logged, 1);
    assert_eq!(h.library.find_exact("svc", "GET", "/x", "_global").unwrap().id, "1700000000005");
}

#[test]
fn learn_counts_milestones_and_latencies() {
    let mut h = harness(Mode::Learn);
    h.learn("/a", None, reply(200, "a"));
    h.learn("/b", None, reply(200, "b"));
    let c = h.state.telemetry.counters();
    let count = |n: &str| c.get(&n.to_string()).copied();
    assert_eq!(count(counter_names::AGENT_BOOTS_TOTAL), Some(1));
    assert_eq!(count(counter_names::FIRST_REQUEST_PROXIED_TOTAL), Some(1));
    assert_eq!(count(counter_names::FIRST_MOCK_RECORDED_TOTAL), Some(1));
    let o = h.state.telemetry.drain_observations();
    assert_eq!(o.get(&observation_names::MOCK_FIDELITY_MS.to_string()).unwrap().len(), 2);
}

#[test]
fn learn_cuts_long_bodies() {
    let mut h = harness(Mode::Learn);
    let req = h.request("/x", None, "request body");
    let l = h.state.learn(
        &mut h.library,
        &req,
        12,
        reply(200, "response"),
        &redaction_list(None),
        7,
        0,
    );
    assert_eq!(l.entry.request.body, "[BODY_TRUNCATED: 12 bytes]");
    assert_eq!(l.entry.response.body, "[BODY_TRUNCATED: 8 bytes]");
    assert_eq!(text(&l.response), "response");
}

#[test]
fn mock_exact_hit_serves_recorded_response_without_calling_upstream() {
    let mut h = harness(Mode::Mock);
    h.library.record("_global", mock("1", "/api/users/123", r#"{"recorded":"yes"}"#, GLOBAL_TENANT));
    let resp = h.get("/api/users/123", None);
    assert_eq!(resp.status, 200);
    assert_eq!(resp.header("x-ghost-mock").as_deref(), Some("true"));
    assert!(text(&resp).contains("recorded"));
    assert!(h.state.unmatched.is_empty());
    let c = h.state.telemetry.counters();
    assert_eq!(c.get(&counter_names::FIRST_MOCK_SERVED_TOTAL.to_string()), Some(&1));
}

#[test]
fn mock_miss_returns_default_404_with_x_ghost_miss_header() {
    let mut h = harness(Mode::Mock);
    let resp = h.get("/api/users/999?b=2&a=1", None);
    assert_eq!(resp.status, 404);
    assert!(resp.header("x-ghost-miss").is_some());
    assert_eq!(h.state.unmatched.len(), 1);
    assert_eq!(h.state.unmatched[0].uri, "/api/users/999?a=1&b=2");
}

#[test]
fn mock_body_must_match() {
    let mut h = harness(Mode::Mock);
    h.library.record("_global", mock("1", "/x", "r", GLOBAL_TENANT));
    let req = h.request("/x", None, "other");
    assert_eq!(h.state.replay(&h.library, false, &req).0, MatchKind::Miss);
    let req = h.request("/x", None, "");
    assert_eq!(h.state.replay(&h.library, false, &req).0, MatchKind::Exact);
}

#[test]
fn mock_smart_swap_serves_similar_path_when_enabled() {
    let mut h = harness(Mode::Mock);
    h.library.record("_global", mock("1", "/api/users/123", r#"{"id":"123"}"#, GLOBAL_TENANT));
    assert_eq!(h.get("/api/users/456", None).status, 404);
    h.swap = true;
    let resp = h.get("/api/users/456", None);
    assert_eq!(resp.status, 200);
    assert_eq!(resp.header("x-ghost-swapmatch").as_deref(), Some("true"));
    assert_eq!(text(&resp), r#"{"id":"456"}"#);
    // The entries of other tenants are no candidates.
    assert_eq!(h.get("/api/users/456", Some("other")).status, 404);
}

fn steps(id: &str) -> MockSequence {
    let step = |body: &str| SequenceResponse {
        status: 200,
        headers: OrdMap::new(),
        body: body.to_string(),
        latency_ms: 0,
    };
    MockSequence {
        id: id.to_string(),
        method: "GET".to_string(),
        uri: "/api/seq".to_string(),
        responses: vec![step(r#"{"step":1}"#), step(r#"{"step":2}"#)],
        loop_responses: false,
    }
}

#[test]
fn mock_sequence_returns_step_one_then_step_two() {
    let mut h = harness(Mode::Mock);
    h.state.create_sequence(steps("seq-test"));
    let r1 = h.get("/api/seq", None);
    assert_eq!(r1.status, 200);
    assert_eq!(r1.header("x-ghost-sequence").as_deref(), Some("true"));
    assert_eq!(text(&r1), r#"{"step":1}"#);
    assert_eq!(text(&h.get("/api/seq", None)), r#"{"step":2}"#);
    assert_eq!(text(&h.get("/api/seq", None)), r#"{"step":2}"#);
}

#[test]
fn sequences_can_be_reset_replaced_and_deleted() {
    let mut h = harness(Mode::Mock);
    h.state.create_sequence(steps("a"));
    h.state.create_sequence(steps("b"));
    h.get("/api/seq", None);
    h.state.reset_sequence("a");
    assert_eq!(text(&h.get("/api/seq", None)), r#"{"step":1}"#);
    h.state.create_sequence(steps("a"));
    assert_eq!(h.state.sequences.len(), 2);
    assert_eq!(h.state.sequences[1].id, "a");
    // A replaced sequence keeps its place in the counters.
    h.state.delete_sequence("b");
    assert_eq!(text(&h.get("/api/seq", None)), r#"{"step":2}"#);
    h.state.delete_sequence("a");
    assert!(h.state.sequences.is_empty());
    assert_eq!(h.get("/api/seq", None).status, 404);
}

#[test]
fn exact_match_comes_before_sequences() {
    let mut h = harness(Mode::Mock);
    h.state.create_sequence(steps("a"));
    h.library.record("_global", mock("1", "/api/seq", "recorded", GLOBAL_TENANT));
    assert_eq!(text(&h.get("/api/seq", None)), "recorded");
    assert_eq!(h.decide("/api/seq", None).1, "exact");
    assert!(h.state.counters.is_empty());
}

#[test]
fn labels_of_match_kinds() {
    assert_eq!(MatchKind::Exact.label(), "exact");
    assert_eq!(MatchKind::Sequence.label(), "sequence");
    assert_eq!(MatchKind::SmartSwap.label(), "smart_swap");
    assert_eq!(MatchKind::Miss.label(), "miss");
}

#[test]
fn passthrough_forwards_get_to_upstream() {
    let mut h = harness(Mode::Passthrough);
    match h.decide("/api/passthrough", None) {
        (Step::Forward(target, record), label) => {
            assert_eq!(target, "http://default/api/passthrough");
            assert!(!record);
            assert_eq!(label, "passthrough");
        }
        _ => panic!("not forwarded"),
    }
    let r = pass_through(reply(200, r#"{"passthrough":true}"#));
    assert_eq!(r.status, 200);
    assert_eq!(r.header("content-type").as_deref(), Some("application/json"));
    assert_eq!(text(&r), r#"{"passthrough":true}"#);
}

#[test]
fn transitioning_returns_503_with_retry_after() {
    let mut h = harness(Mode::Transitioning);
    let (step, label) = h.decide("/api/whatever", None);
    assert_eq!(label, "transitioning");
    let resp = match step {
        Step::Reply(plan) => plan,
        _ => panic!("forwarded"),
    };
    assert_eq!(resp.status, 503);
    assert!(resp.header("retry-after").is_some());
    assert!(resp.header("x-ghost-transitioning").is_some());
    assert!(text(&resp).contains("transitioning"));
}

#[test]
fn set_mode_endpoint_changes_mode_atomically() {
    let mut h = harness(Mode::Learn);
    let change = h.state.set_mode(Mode::Mock);
    assert_eq!(h.state.mode, Mode::Mock);
    assert_eq!(change.label, "Mock");
}

#[test]
fn set_mode_persists_to_mode_file_when_durable() {
    let mut h = harness(Mode::Learn);
    let content = h.state.set_mode(Mode::Mock).persisted.unwrap();
    assert_eq!(content, "MOCK");
    assert_eq!(parse_mode_file(&content), Some(Mode::Mock));
}

#[test]
fn set_mode_does_not_persist_transitioning() {
    let mut h = harness(Mode::Learn);
    assert!(h.state.set_mode(Mode::Transitioning).persisted.is_none());
    assert_eq!(h.state.mode, Mode::Transitioning);
}

#[test]
fn per_service_mode_overrides_global_mode() {
    let mut h = harness(Mode::Learn);
    h.state.set_upstreams(vec![route("/api/mocked", "mocked-svc", Some(Mode::Mock))]);
    h.library.record("mocked-svc", mock("1", "/api/mocked/1", r#"{"mocked":true}"#, GLOBAL_TENANT));
    assert_eq!(h.get("/api/mocked/1", None).status, 200);
    assert!(matches!(h.decide("/api/other", None).0, Step::Forward(_, true)));
}

#[test]
fn hot_reload_http_admin_picks_up_edits_without_restart() {
    let mut h = harness(Mode::Mock);
    let file = "mock__global.jsonl".to_string();
    h.library = load_all_service_mocks(vec![(
        file.clone(),
        vec![mock("1", "/users/1", r#"{"version":1}"#, GLOBAL_TENANT)],
    )]);
    assert!(text(&h.get("/users/1", None)).contains("\"version\":1"));
    reload_one_file(
        &mut h.library,
        &file,
        vec![mock("2", "/users/1", r#"{"version":2}"#, GLOBAL_TENANT)],
    );
    assert!(text(&h.get("/users/1", None)).contains("\"version\":2"));
}

#[test]
fn hot_reload_in_flight_request_uses_snapshotted_library() {
    let mut h = harness(Mode::Mock);
    let mut v1 = mock("v1", "/snap", r#"{"version":"v1"}"#, GLOBAL_TENANT);
    v1.response.latency_ms = 250;
    h.library.create(v1);
    let snapshot = h.library.dup();
    let v2 = mock("v2", "/snap", r#"{"version":"v2"}"#, GLOBAL_TENANT);
    h.library = load_all_service_mocks(vec![("mock__global.jsonl".to_string(), vec![v2])]);
    let req = h.request("/snap", None, "");
    let (_, in_flight) = h.state.replay(&snapshot, false, &req);
    assert!(text(&in_flight).contains("v1"), "an in-flight request keeps its snapshot");
    assert_eq!(in_flight.delay_ms, 250);
    assert!(text(&h.get("/snap", None)).contains("v2"), "a new request sees the new library");
}

#[test]
fn per_tenant_three_concurrent_workers_zero_cross_pollution() {
    let mut h = harness(Mode::Mock);
    for who in ["alice", "bob", "carol"] {
        h.library.record("_global", mock("1", "/x", &format!(r#"{{"who":"{who}"}}"#), who));
    }
    for who in ["alice", "bob", "carol"] {
        assert!(text(&h.get("/x", Some(who))).contains(who));
    }
    assert_eq!(h.get("/x", None).status, 404, "untagged request must fall into _global");
}

#[test]
fn per_tenant_query_string_fallback() {
    let mut h = harness(Mode::Mock);
    h.library.record("_global", mock("1", "/qs", r#"{"via":"qs"}"#, "via-qs"));
    let resp = h.get("/qs?_tenant=via-qs", None);
    assert_eq!(resp.status, 200);
    assert!(text(&resp).contains("\"via\":\"qs\""));
}

#[test]
fn per_tenant_header_wins_over_query_string() {
    let mut h = harness(Mode::Mock);
    h.library.record("_global", mock("1", "/p", r#"{"via":"header"}"#, "from-header"));
    h.library.record("_global", mock("2", "/p", r#"{"via":"query"}"#, "from-query"));
    let resp = h.get("/p?_tenant=from-query", Some("from-header"));
    assert_eq!(resp.status, 200);
    assert!(text(&resp).contains("header"));
    assert!(!text(&resp).contains("query"));
}

#[test]
fn per_tenant_learn_records_under_request_tenant() {
    let mut h = harness(Mode::Learn);
    h.learn("/recorded", Some("test-1"), reply(200, r#"{"recorded":"under-test-1"}"#));
    h.state.set_mode(Mode::Mock);
    let r1 = h.get("/recorded", Some("test-1"));
    assert_eq!(r1.status, 200);
    assert!(text(&r1).contains("under-test-1"));
    let r2 = h.get("/recorded", Some("test-2"));
    assert_eq!(r2.status, 404, "tenant test-2 must not see test-1's recorded mock");
}

#[test]
fn per_tenant_admin_post_accepts_tenant_field_and_defaults_to_global() {
    let mut h = harness(Mode::Mock);
    h.library.create(mock("admin-1", "/admin", r#"{"who":"admin-tenant"}"#, "admin-tenant"));
    assert!(text(&h.get("/admin", Some("admin-tenant"))).contains("admin-tenant"));
    h.library.create(mock("admin-2", "/admin-default", r#"{"who":"global"}"#, GLOBAL_TENANT));
    assert!(text(&h.get("/admin-default", None)).contains("global"));
}

#[test]
fn per_tenant_list_mocks_supports_tenant_filter() {
    let mut h = harness(Mode::Mock);
    h.library.record("_global", mock("a", "/a", "a-body", "tenant-a"));
    h.library.record("_global", mock("b", "/b", "b-body", "tenant-b"));
    let scoped = h.library.all_entries(Some("tenant-a"));
    assert_eq!(scoped.len(), 1);
    assert_eq!(scoped[0].response.body, "a-body");
    assert_eq!(h.library.all_entries(None).len(), 2);
}

#[test]
fn recorded_headers_and_delay_are_served() {
    let mut h = harness(Mode::Mock);
    let mut e = mock("1", "/late", "x", GLOBAL_TENANT);
    e.response.status = 201;
    e.response.latency_ms = 20_000;
    e.response.headers.insert("Content-Type".to_string(), "text/plain".to_string());
    h.library.record("_global", e);
    let r = h.get("/late", None);
    assert_eq!(r.status, 201);
    assert_eq!(r.delay_ms, 10_000);
    assert_eq!(r.header("content-type").as_deref(), Some("text/plain"));
}

#[test]
fn a_recorded_reply_is_given_back() {
    let mut h = harness(Mode::Learn);
    h.learn("/api/users/7?b=2&a=1", Some("w1"), reply(201, "{\"name\":\"gr\u{fc}n\"}"));
    h.state.set_mode(Mode::Mock);
    let plan = h.get("/api/users/7?a=1&b=2", Some("w1"));
    assert_eq!(plan.status, 201);
    assert_eq!(text(&plan), "{\"name\":\"gr\u{fc}n\"}");
    assert_eq!(plan.header("content-type").as_deref(), Some("application/json"));
    assert_eq!(plan.header("set-cookie").as_deref(), Some("[REDACTED]"));
    assert_eq!(plan.header("x-ghost-mock").as_deref(), Some("true"));
    assert_eq!(plan.delay_ms, 12);
    assert_eq!(h.get("/api/users/7?a=1&b=2", Some("w2")).status, 404);
}
