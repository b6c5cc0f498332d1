//! Routes, tenants and routed requests.
use gostly::chaos::ChaosConfig;
use gostly::chaos::ChaosModel;
use gostly::routing::count_markov_routes;
use gostly::routing::resolve_tenant;
use gostly::routing::resolve_upstream;
use gostly::routing::route_request;
use gostly::routing::UpstreamRoute;
use gostly::types::Mode;

fn route(routing_type: &str, value: &str, upstream: &str, svc: &str) -> UpstreamRoute {
    UpstreamRoute {
        routing_type: routing_type.to_string(),
        routing_value: value.to_string(),
        upstream_url: upstream.to_string(),
        service_id: svc.to_string(),
        mode: None,
        chaos_config: None,
        redact_headers: vec![],
    }
}

#[test]
fn resolve_upstream_no_routes_returns_default() {
    let (url, svc, mode, cc, hdrs) =
        resolve_upstream(&[], "host.example", "/foo", "http://default");
    assert_eq!(url, "http://default");
    assert!(svc.is_none());
    assert!(mode.is_none());
    assert!(cc.is_none());
    assert!(hdrs.is_empty());
}

#[test]
fn resolve_upstream_host_match_strips_port() {
    // The host header may include a port; the bare host is compared too.
    let routes = vec![route("host", "api.example", "http://up", "svc-1")];
    let (url, svc, _, _, _) =
        resolve_upstream(&routes, "api.example:443", "/anything", "http://default");
    assert_eq!(url, "http://up");
    assert_eq!(svc.as_deref(), Some("svc-1"));
}

#[test]
fn resolve_upstream_host_match_full_value() {
    let routes = vec![route("host", "api.example:443", "http://up", "svc-1")];
    let (url, _, _, _, _) = resolve_upstream(&routes, "api.example:443", "/", "http://default");
    assert_eq!(url, "http://up");
}

#[test]
fn resolve_upstream_host_no_match_returns_default() {
    let routes = vec![route("host", "api.example", "http://up", "svc-1")];
    let (url, svc, _, _, _) = resolve_upstream(&routes, "other.example", "/", "http://default");
    assert_eq!(url, "http://default");
    assert!(svc.is_none());
}

#[test]
fn resolve_upstream_path_match_uses_starts_with() {
    let routes = vec![route("path", "/api/orders", "http://orders", "svc-orders")];
    let (url, svc, _, _, _) =
        resolve_upstream(&routes, "any.host", "/api/orders/123", "http://default");
    assert_eq!(url, "http://orders");
    assert_eq!(svc.as_deref(), Some("svc-orders"));
}

#[test]
fn resolve_upstream_path_no_match_returns_default() {
    let routes = vec![route("path", "/api/orders", "http://orders", "svc-orders")];
    let (url, _, _, _, _) = resolve_upstream(&routes, "any.host", "/users", "http://default");
    assert_eq!(url, "http://default");
}

#[test]
fn resolve_upstream_unknown_routing_type_is_skipped() {
    let routes = vec![
        route("regex", ".*", "http://wrong", "svc-wrong"),
        route("path", "/v1", "http://right", "svc-right"),
    ];
    let (url, svc, _, _, _) = resolve_upstream(&routes, "h", "/v1/x", "http://default");
    assert_eq!(url, "http://right");
    assert_eq!(svc.as_deref(), Some("svc-right"));
}

#[test]
fn resolve_upstream_first_match_wins() {
    let routes = vec![
        route("path", "/api", "http://first", "svc-first"),
        route("path", "/api", "http://second", "svc-second"),
    ];
    let (url, svc, _, _, _) = resolve_upstream(&routes, "h", "/api/x", "http://default");
    assert_eq!(url, "http://first");
    assert_eq!(svc.as_deref(), Some("svc-first"));
}

#[test]
fn resolve_upstream_propagates_per_route_mode_and_redact_headers() {
    let r = UpstreamRoute {
        routing_type: "host".to_string(),
        routing_value: "h".to_string(),
        upstream_url: "http://up".to_string(),
        service_id: "svc".to_string(),
        mode: Some(Mode::Mock),
        chaos_config: None,
        redact_headers: vec!["x-extra-secret".to_string()],
    };
    let (_, _, mode, _, hdrs) = resolve_upstream(&[r], "h", "/", "http://default");
    assert_eq!(mode, Some(Mode::Mock));
    assert_eq!(hdrs, vec!["x-extra-secret".to_string()]);
}

#[test]
fn markov_routes_are_counted() {
    let mut markov = route("path", "/a", "u", "a");
    markov.chaos_config =
        Some(ChaosConfig { chaos_model: ChaosModel::Markov, ..Default::default() });
    let mut uniform = route("path", "/b", "u", "b");
    uniform.chaos_config = Some(ChaosConfig::default());
    assert_eq!(count_markov_routes(&[markov, uniform, route("path", "/c", "u", "c")]), 1);
}

#[test]
fn tenant_comes_from_the_header_first() {
    let c = resolve_tenant(Some("from-header"), "/p?_tenant=from-query");
    assert_eq!(c.tenant, "from-header");
    assert_eq!(c.uri, "/p");
    assert!(!c.truncated);
}

#[test]
fn tenant_comes_from_the_query_next() {
    let c = resolve_tenant(None, "/qs?a=1&_tenant=via-qs&b=2");
    assert_eq!(c.tenant, "via-qs");
    assert_eq!(c.uri, "/qs?a=1&b=2");
}

#[test]
fn tenant_is_global_without_a_name() {
    for u in ["/x", "/x?a=1", "/x?", "/x?_tenant", "/x?_tenant="] {
        assert_eq!(resolve_tenant(None, u).tenant, "_global");
        assert_eq!(resolve_tenant(Some(""), u).tenant, "_global");
    }
    assert_eq!(resolve_tenant(None, "/x?").uri, "/x?");
    assert_eq!(resolve_tenant(None, "/x?_tenant=").uri, "/x");
}

#[test]
fn similar_parameters_name_no_tenant() {
    let c = resolve_tenant(None, "/x?_tenants=a&tenant=b");
    assert_eq!(c.tenant, "_global");
    assert_eq!(c.uri, "/x?_tenants=a&tenant=b");
}

#[test]
fn first_tenant_of_the_query_counts_and_all_are_stripped() {
    let c = resolve_tenant(None, "/x?_tenant=a&_tenant=b");
    assert_eq!(c.tenant, "a");
    assert_eq!(c.uri, "/x");
}

#[test]
fn long_tenants_are_cut() {
    let long = "é".repeat(129);
    let c = resolve_tenant(Some(&long), "/x");
    assert_eq!(c.tenant, "é".repeat(128));
    assert!(c.truncated);
    let exact = "t".repeat(128);
    let c = resolve_tenant(Some(&exact), "/x");
    assert_eq!(c.tenant, exact);
    assert!(!c.truncated);
}

#[test]
fn routed_request_is_canonical() {
    let mut r = route("path", "/api", "http://up", "svc");
    r.mode = Some(Mode::Mock);
    let req = route_request(
        "GET",
        "/api/x?b=2&_tenant=t&a=1",
        "h",
        None,
        "body".to_string(),
        Mode::Learn,
        &[r],
        "http://default",
    );
    assert_eq!(req.method, "GET");
    assert_eq!(req.uri, "/api/x?a=1&b=2");
    assert_eq!(req.body, "body");
    assert_eq!(req.tenant, "t");
    assert_eq!(req.service_id.as_deref(), Some("svc"));
    assert_eq!(req.mode, Mode::Mock);
    assert_eq!(req.service(), "svc");
    assert_eq!(req.target(), "http://up/api/x?_tenant=t&a=1&b=2");
}

#[test]
fn unrouted_request_has_the_global_mode() {
    let req = route_request(
        "GET",
        "/x",
        "",
        Some("t"),
        String::new(),
        Mode::Passthrough,
        &[],
        "http://default",
    );
    assert_eq!(req.mode, Mode::Passthrough);
    assert_eq!(req.service(), "_global");
    assert_eq!(req.target(), "http://default/x");
    assert!(!req.tenant_truncated);
}
