//! Modes and the runtime configuration.
use gostly::json::Json;
use gostly::types::Mode;
use gostly::types::RuntimeConfig;

#[test]
fn mode_serialises_uppercase() {
    assert_eq!(Mode::Learn.to_json().render().unwrap(), "\"LEARN\"");
    assert_eq!(Mode::Mock.to_json().render().unwrap(), "\"MOCK\"");
    assert_eq!(Mode::Passthrough.to_json().render().unwrap(), "\"PASSTHROUGH\"");
    assert_eq!(Mode::Transitioning.to_json().render().unwrap(), "\"TRANSITIONING\"");
}

#[test]
fn mode_deserialises_uppercase() {
    let read = |s: &str| Mode::from_json(&Json::parse(s).unwrap());
    assert_eq!(read("\"LEARN\""), Some(Mode::Learn));
    assert_eq!(read("\"MOCK\""), Some(Mode::Mock));
    assert_eq!(read("\"PASSTHROUGH\""), Some(Mode::Passthrough));
}

#[test]
fn mode_rejects_lowercase() {
    assert!(Mode::from_json(&Json::parse("\"mock\"").unwrap()).is_none());
    assert!(Mode::from_json(&Json::parse("1").unwrap()).is_none());
}

#[test]
fn mode_labels_and_names() {
    for (m, label, name) in [
        (Mode::Learn, "LEARN", "Learn"),
        (Mode::Mock, "MOCK", "Mock"),
        (Mode::Passthrough, "PASSTHROUGH", "Passthrough"),
        (Mode::Transitioning, "TRANSITIONING", "Transitioning"),
    ] {
        assert_eq!(m.label(), label);
        assert_eq!(m.name(), name);
        assert_eq!(Mode::from_label(label), Some(m));
    }
    assert_eq!(Mode::from_label("Learn"), None);
}

#[test]
fn runtime_config_keeps_what_is_not_given() {
    let mut c = RuntimeConfig::new();
    assert_eq!(c.unmatched_status, 404);
    c.update(None, Some("x".to_string()));
    assert_eq!(c.unmatched_status, 404);
    assert_eq!(c.unmatched_body, "x");
    c.update(Some(500), None);
    assert_eq!(c.unmatched_status, 500);
    assert_eq!(c.unmatched_body, "x");
}
