//! Wide events and times.
use gostly::json::Json;
use gostly::timestamps::Timestamp;
use gostly::wide_events::event_id;
use gostly::wide_events::wide_events_path;
use gostly::wide_events::WideEvent;
use gostly::wide_events::WIDE_EVENTS_FILE;

fn attr(evt: &WideEvent, name: &str) -> Option<String> {
    evt.attrs.get(&name.to_string()).map(|v| v.render().unwrap())
}

#[test]
fn request_recorded_attribute_layout_matches_semconv() {
    let evt = WideEvent::request_recorded(Some("svc-1"), "GET", "/v1/users/{id}", 200, 42, "agent", 0);
    assert_eq!(evt.event_type, "request_recorded");
    assert_eq!(evt.service_id.as_deref(), Some("svc-1"));
    assert_eq!(attr(&evt, "workload_class").as_deref(), Some("\"agent\""));
    assert_eq!(attr(&evt, "method").as_deref(), Some("\"GET\""));
    assert_eq!(attr(&evt, "status").as_deref(), Some("200"));
    assert_eq!(attr(&evt, "latency_ms").as_deref(), Some("42"));
    assert_eq!(attr(&evt, "uri_pattern").as_deref(), Some("\"/v1/users/{id}\""));
    assert_eq!(attr(&evt, "service_id").as_deref(), Some("\"svc-1\""));
    assert_eq!(evt.attrs.len(), 6);
    assert!(matches!(evt.attrs.get(&"status".to_string()), Some(Json::Number(_))));
}

#[test]
fn id_is_unique_within_burst() {
    let mut ids = std::collections::HashSet::new();
    for n in 0..100 {
        ids.insert(WideEvent::request_recorded(None, "GET", "/", 200, 0, "ci", n).id);
    }
    assert_eq!(ids.len(), 100, "monotonic counter must guarantee uniqueness");
}

#[test]
fn event_at_a_given_time() {
    let now = Timestamp { secs: 1_700_000_000, nanos: 123_456_789 };
    let evt = WideEvent::request_recorded_at(None, "POST", "/x", 201, 7, "human", 9, now);
    assert_eq!(evt.id, "we_1700000000123_9");
    assert_eq!(evt.ts, "2023-11-14T22:13:20.123456789+00:00");
    assert!(evt.service_id.is_none());
    assert_eq!(evt.attrs.len(), 5);
    assert_eq!(event_id(-1, 0), "we_-1_0");
}

#[test]
fn event_file_is_in_the_directory() {
    assert_eq!(wide_events_path("data"), format!("data/{WIDE_EVENTS_FILE}"));
    assert_eq!(wide_events_path("data/"), "data/wide_events.jsonl");
    assert_eq!(wide_events_path(""), "wide_events.jsonl");
}

#[test]
fn times_are_written_and_read() {
    let t = Timestamp { secs: 0, nanos: 5_000_000 };
    assert_eq!(t.to_rfc3339(), "1970-01-01T00:00:00.005+00:00");
    assert_eq!(Timestamp::parse_rfc3339(&t.to_rfc3339()), Some(t));
    assert_eq!(
        Timestamp::parse_rfc3339("2026-05-04T00:00:00Z"),
        Some(Timestamp { secs: 1_777_852_800, nanos: 0 })
    );
    assert_eq!(
        Timestamp::parse_rfc3339("1970-01-01T01:00:00+01:00"),
        Some(Timestamp { secs: 0, nanos: 0 })
    );
    assert_eq!(
        Timestamp::parse_rfc3339("1998-12-31T23:59:60Z"),
        Some(Timestamp { secs: 915_148_800, nanos: 0 })
    );
    assert_eq!(Timestamp::parse_rfc3339("yesterday"), None);
}

#[test]
fn clock_has_passed_2020() {
    let now = Timestamp::now();
    assert!(now.secs > 1_577_836_800);
    assert_eq!(now.to_millis(), now.secs * 1000 + (now.nanos / 1_000_000) as i64);
    assert_eq!(now.to_nanos(), now.secs as i128 * 1_000_000_000 + now.nanos as i128);
}
