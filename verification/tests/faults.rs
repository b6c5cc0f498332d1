//! Injected faults.
use gostly::chaos::ChaosConfig;
use gostly::chaos::ChaosModel;
use gostly::chaos::EndpointRule;
use gostly::chaos::MarkovConfig;
use gostly::faults::active_chaos;
use gostly::faults::chaos_event;
use gostly::faults::chaos_rates;
use gostly::faults::inject_error;
use gostly::faults::next_spell_mean_ms;
use gostly::markov_chaos::MarkovState;
use gostly::ordmap::OrdMap;
use gostly::routing::route_request;
use gostly::routing::RoutedRequest;
use gostly::routing::UpstreamRoute;
use gostly::types::Mode;

const MS: i128 = 1_000_000;

fn request(mode: Mode, uri: &str, cc: Option<ChaosConfig>) -> RoutedRequest {
    let route = UpstreamRoute {
        routing_type: "path".to_string(),
        routing_value: "/".to_string(),
        upstream_url: "http://up".to_string(),
        service_id: "svc".to_string(),
        mode: None,
        chaos_config: cc,
        redact_headers: vec![],
    };
    route_request("GET", uri, "", None, String::new(), mode, &[route], "")
}

fn enabled() -> ChaosConfig {
    ChaosConfig { enabled: true, latency_ms: 50, ..Default::default() }
}

#[test]
fn chaos_injects_latency_when_configured() {
    let req = request(Mode::Mock, "/api/slow/1", Some(enabled()));
    assert_eq!(active_chaos(&req).unwrap().latency_ms, 50);
}

#[test]
fn chaos_is_for_mock_and_passthrough() {
    for (mode, some) in [
        (Mode::Mock, true),
        (Mode::Passthrough, true),
        (Mode::Learn, false),
        (Mode::Transitioning, false),
    ] {
        assert_eq!(active_chaos(&request(mode, "/", Some(enabled()))).is_some(), some);
    }
    assert!(active_chaos(&request(Mode::Mock, "/", None)).is_none());
    let off = ChaosConfig { enabled: false, ..enabled() };
    assert!(active_chaos(&request(Mode::Mock, "/", Some(off))).is_none());
}

#[test]
fn chaos_can_be_limited_to_modes() {
    let only = || ChaosConfig { modes: vec!["PASSTHROUGH".to_string()], ..enabled() };
    assert!(active_chaos(&request(Mode::Mock, "/", Some(only()))).is_none());
    assert!(active_chaos(&request(Mode::Passthrough, "/", Some(only()))).is_some());
}

#[test]
fn endpoint_rule_counts_before_the_service() {
    let rule = EndpointRule {
        uri_pattern: "/slow/**".to_string(),
        config: ChaosConfig { latency_ms: 9, ..Default::default() },
    };
    let cc = ChaosConfig { endpoint_rules: vec![rule], ..enabled() };
    let req = request(Mode::Mock, "/slow/x?q=1", Some(cc));
    assert_eq!(active_chaos(&req).unwrap().latency_ms, 9);
}

#[test]
fn uniform_rates_are_those_of_the_configuration() {
    let cc = ChaosConfig { error_rate: 0.25f64.to_bits(), ..enabled() };
    let mut states: OrdMap<String, MarkovState> = OrdMap::new();
    let svc = Some("svc".to_string());
    assert_eq!(next_spell_mean_ms(&cc, &states, &svc, 0), None);
    assert_eq!(chaos_rates(&cc, &mut states, &svc, 0, 5), (0.25f64.to_bits(), 1.0f64.to_bits()));
    assert!(states.is_empty());
}

#[test]
fn markov_rates_follow_the_state_of_the_service() {
    let cc = ChaosConfig {
        chaos_model: ChaosModel::Markov,
        markov: Some(MarkovConfig { mean_dwell_degraded_ms: 77, ..Default::default() }),
        ..enabled()
    };
    let mut states: OrdMap<String, MarkovState> = OrdMap::new();
    let svc = Some("svc".to_string());
    // A new service is healthy until its first request, which begins a degraded spell.
    assert_eq!(next_spell_mean_ms(&cc, &states, &svc, 0), Some(77));
    assert_eq!(chaos_rates(&cc, &mut states, &svc, 0, 10), (0.6f64.to_bits(), 5.0f64.to_bits()));
    assert_eq!(next_spell_mean_ms(&cc, &states, &svc, 5 * MS), None);
    assert_eq!(
        chaos_rates(&cc, &mut states, &svc, 5 * MS, 10),
        (0.6f64.to_bits(), 5.0f64.to_bits())
    );
    assert_eq!(next_spell_mean_ms(&cc, &states, &svc, 10 * MS), Some(30_000));
    assert_eq!(chaos_rates(&cc, &mut states, &svc, 10 * MS, 10), (0, 1.0f64.to_bits()));
    // Unrouted requests share a state of their own.
    let _ = chaos_rates(&cc, &mut states, &None, 10 * MS, 10);
    assert_eq!(states.len(), 2);
}

#[test]
fn error_is_injected_below_a_positive_rate() {
    let cc = ChaosConfig { error_status: 503, error_body: "down".to_string(), ..enabled() };
    let rate = 0.5f64.to_bits();
    let (plan, status) = inject_error(&cc, rate, true, &vec![]).unwrap();
    assert_eq!(status, 503);
    assert_eq!(plan.status, 503);
    assert_eq!(plan.header("x-ghost-chaos").as_deref(), Some("true"));
    assert!(inject_error(&cc, rate, false, &vec![]).is_none());
    assert!(inject_error(&cc, 0, true, &vec![]).is_none());
    assert!(inject_error(&enabled(), rate, true, &vec![]).is_none());
}

#[test]
fn reports_name_what_was_injected() {
    let req = request(Mode::Mock, "/orders/123456?token=secret", Some(enabled()));
    let cc = ChaosConfig { preset: Some("flaky".to_string()), ..enabled() };
    assert!(chaos_event(&cc, &req, None, 0).is_none());
    let e = chaos_event(&cc, &req, Some(500), 0).unwrap();
    assert_eq!(e.chaos_type, "error");
    assert_eq!(e.path, "/orders/{id}");
    assert_eq!(e.rule_name, "flaky");
    assert_eq!(e.service_id, "svc");
    assert_eq!(e.method, "GET");
    assert_eq!(e.injected_status, Some(500));
    let e = chaos_event(&enabled(), &req, None, 7).unwrap();
    assert_eq!(e.chaos_type, "latency");
    assert_eq!(e.rule_name, "custom");
    assert_eq!(e.injected_latency_ms, 7);
    assert_eq!(chaos_event(&cc, &req, Some(500), 7).unwrap().chaos_type, "both");
}
