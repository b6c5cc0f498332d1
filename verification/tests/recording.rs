//! What is recorded of an exchange.
use gostly::ordmap::OrdMap;
use gostly::recording::body_text;
use gostly::recording::body_to_store;
use gostly::recording::collect_headers;
use gostly::recording::redact;
use gostly::recording::redaction_list;

fn headers(pairs: &[(&str, &str)]) -> OrdMap<String, String> {
    let mut m = OrdMap::new();
    for (k, v) in pairs {
        m.insert(k.to_string(), v.to_string());
    }
    m
}

fn value(m: &OrdMap<String, String>, k: &str) -> Option<String> {
    m.get(&k.to_string()).cloned()
}

#[test]
fn bodies_are_text() {
    assert_eq!(body_text(b"hello"), "hello");
    assert_eq!(body_text("gr\u{fc}n".as_bytes()), "gr\u{fc}n");
    assert_eq!(body_text(&[0x66, 0xff, 0x6f]), "f\u{fffd}o");
    assert_eq!(body_text(&[]), "");
}

#[test]
fn long_bodies_leave_a_note() {
    assert_eq!(body_to_store("12345".to_string(), 5, 5), "12345");
    assert_eq!(body_to_store("123456".to_string(), 6, 5), "[BODY_TRUNCATED: 6 bytes]");
    assert_eq!(body_to_store(String::new(), 0, 0), "");
}

#[test]
fn floor_is_always_redacted() {
    let list = redaction_list(None);
    assert_eq!(list.len(), 16);
    let h = headers(&[
        ("Set-Cookie", "s"),
        ("AUTHORIZATION", "s"),
        ("x-api-key", "s"),
        ("content-type", "application/json"),
    ]);
    let r = redact(&h, &list, &vec![]);
    assert_eq!(value(&r, "Set-Cookie").as_deref(), Some("[REDACTED]"));
    assert_eq!(value(&r, "AUTHORIZATION").as_deref(), Some("[REDACTED]"));
    assert_eq!(value(&r, "x-api-key").as_deref(), Some("[REDACTED]"));
    assert_eq!(value(&r, "content-type").as_deref(), Some("application/json"));
    assert_eq!(r.len(), 4);
}

#[test]
fn settings_and_services_add_to_the_floor() {
    let list = redaction_list(Some(" X-Extra ,, set-cookie, X-EXTRA"));
    assert_eq!(list.len(), 17);
    assert_eq!(list[16], "x-extra");
    let h = headers(&[("x-extra", "1"), ("x-own", "2"), ("token", "3"), ("x-free", "4")]);
    let r = redact(&h, &list, &vec!["X-Own".to_string()]);
    assert_eq!(value(&r, "x-extra").as_deref(), Some("[REDACTED]"));
    assert_eq!(value(&r, "x-own").as_deref(), Some("[REDACTED]"));
    assert_eq!(value(&r, "token").as_deref(), Some("[REDACTED]"));
    assert_eq!(value(&r, "x-free").as_deref(), Some("4"));
}

#[test]
fn last_header_of_a_name_counts() {
    let m = collect_headers(&vec![
        ("a".to_string(), Some("1".to_string())),
        ("b".to_string(), None),
        ("a".to_string(), Some("2".to_string())),
    ]);
    assert_eq!(m.len(), 2);
    assert_eq!(value(&m, "a").as_deref(), Some("2"));
    assert_eq!(value(&m, "b").as_deref(), Some(""));
}
