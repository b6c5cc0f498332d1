//! Counters, observations and milestones.
use gostly::ordmap::OrdMap;
use gostly::telemetry::counter_names;
use gostly::telemetry::fire_onboarding_event;
use gostly::telemetry::observation_names;
use gostly::telemetry::TelemetryCollector;

fn counter(c: &TelemetryCollector, name: &str) -> Option<u64> {
    c.counters().get(&name.to_string()).copied()
}

#[test]
fn inc_counter_accumulates() {
    let mut c = TelemetryCollector::new();
    c.inc_counter(counter_names::AGENT_BOOTS_TOTAL, 1);
    c.inc_counter(counter_names::AGENT_BOOTS_TOTAL, 2);
    assert_eq!(counter(&c, counter_names::AGENT_BOOTS_TOTAL), Some(3));
}

#[test]
fn set_counter_replaces_value() {
    let mut c = TelemetryCollector::new();
    c.inc_counter(counter_names::AGENT_BOOTS_TOTAL, 5);
    c.set_counter(counter_names::AGENT_BOOTS_TOTAL, 1);
    assert_eq!(counter(&c, counter_names::AGENT_BOOTS_TOTAL), Some(1));
}

#[test]
fn observations_drain_between_calls() {
    let mut c = TelemetryCollector::new();
    c.record_observation(observation_names::MOCK_FIDELITY_MS, 12.0f64.to_bits());
    c.record_observation(observation_names::MOCK_FIDELITY_MS, 18.0f64.to_bits());
    let name = observation_names::MOCK_FIDELITY_MS.to_string();
    let first = c.drain_observations();
    assert_eq!(first.get(&name).map(|v| v.len()), Some(2));
    assert_eq!(f64::from_bits(first.get(&name).unwrap()[1]), 18.0);
    let second = c.drain_observations();
    assert!(second.get(&name).is_none());
}

#[test]
fn observation_bucket_caps_at_1024_samples() {
    let mut c = TelemetryCollector::new();
    for i in 0..2000 {
        c.record_observation(observation_names::MOCK_FIDELITY_MS, (i as f64).to_bits());
    }
    let drained = c.drain_observations();
    let bucket = drained.get(&observation_names::MOCK_FIDELITY_MS.to_string()).unwrap();
    assert_eq!(bucket.len(), 1024);
}

#[test]
fn counters_do_not_wrap() {
    let mut c = TelemetryCollector::new();
    c.set_counter("x", u64::MAX);
    c.inc_counter("x", 1);
    assert_eq!(counter(&c, "x"), Some(u64::MAX));
    assert_eq!(counter(&c, "y"), None);
}

#[test]
fn milestone_is_counted_once_per_service() {
    let mut c = TelemetryCollector::new();
    let mut seen: OrdMap<String, u64> = OrdMap::new();
    fire_onboarding_event(&mut c, "first_request_proxied", Some("a"), &mut seen);
    fire_onboarding_event(&mut c, "first_request_proxied", Some("a"), &mut seen);
    fire_onboarding_event(&mut c, "first_request_proxied", Some("b"), &mut seen);
    fire_onboarding_event(&mut c, "first_request_proxied", None, &mut seen);
    assert_eq!(counter(&c, counter_names::FIRST_REQUEST_PROXIED_TOTAL), Some(3));
    assert!(seen.contains_key(&"_global".to_string()));
    let mut other: OrdMap<String, u64> = OrdMap::new();
    fire_onboarding_event(&mut c, "first_mock_recorded", None, &mut other);
    assert_eq!(counter(&c, counter_names::FIRST_MOCK_RECORDED_TOTAL), Some(1));
    fire_onboarding_event(&mut c, "something_else", Some("a"), &mut other);
    assert_eq!(c.counters().len(), 2);
}
