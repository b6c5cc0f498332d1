//! Captured resources.
use gostly::json::Json;
use gostly::ordmap::OrdMap;
use gostly::resource_store::extract_id;
use gostly::resource_store::resource_lines;
use gostly::resource_store::service_of_resource_file;
use gostly::resource_store::ResourceFile;
use gostly::resource_store::ResourceState;
use gostly::resource_store::ResourceStore;
use gostly::resource_store::ResourceStoreError;
use gostly::statechart::State;
use gostly::statechart::StateMachine;
use gostly::statechart::StatechartRegistry;
use gostly::timestamps::Timestamp;
use std::sync::Arc;

fn json(text: &str) -> Json {
    Json::parse(text).unwrap()
}

fn value(body: &Json) -> serde_json::Value {
    serde_json::from_str(&body.render().unwrap()).unwrap()
}

fn store() -> ResourceStore {
    ResourceStore::new(String::new(), None)
}

fn bundled() -> ResourceStore {
    ResourceStore::new(String::new(), Some(Arc::new(StatechartRegistry::with_bundled_fixtures())))
}

#[test]
fn lookup_returns_none_when_empty() {
    assert!(store().lookup("svc", "charges", "ch_abc").is_none());
    assert!(store().is_empty());
}

#[test]
fn capture_then_lookup_round_trip() {
    let mut store = store();
    let body = json(r#"{"id":"ch_abc","amount":4200}"#);
    let id = store
        .capture_create("svc", "charges", &body, None, Some("application/json"), 200)
        .unwrap();
    assert_eq!(id, "ch_abc");
    let resource = store.lookup("svc", "charges", "ch_abc").unwrap();
    assert_eq!(resource.collection, "charges");
    assert_eq!(value(&resource.body)["amount"], 4200);
    assert_eq!(resource.status, 200);
    assert_eq!(resource.content_type, "application/json");
    assert_eq!(resource.created_at, resource.updated_at);
    assert!(store.lookup("other", "charges", "ch_abc").is_none());
    assert_eq!(store.len(), 1);
    assert!(!store.is_empty());
}

#[test]
fn capture_misses_when_no_id_field() {
    let mut store = store();
    let body = json(r#"{"amount": 4200}"#);
    let result = store.capture_create("svc", "charges", &body, None, None, 200);
    assert!(matches!(result, Err(ResourceStoreError::IdNotFound(_))));
    assert!(result.unwrap_err().message().contains("charges"));
    assert!(store.is_empty());
}

#[test]
fn capture_falls_back_to_singular_id_field() {
    let mut store = store();
    let body = json(r#"{"charge_id": "ch_xyz", "amount": 100}"#);
    let id = store.capture_create("svc", "charges", &body, None, None, 201).unwrap();
    assert_eq!(id, "ch_xyz");
}

#[test]
fn capture_uses_explicit_hint_first() {
    let mut store = store();
    let body = json(r#"{"id": "wrong", "object_id": "right"}"#);
    let id = store.capture_create("svc", "things", &body, Some("object_id"), None, 201).unwrap();
    assert_eq!(id, "right");
}

#[test]
fn capture_walks_nested_body_for_id() {
    let mut store = store();
    let body = json(r#"{"data": {"attributes": {"id": "ch_nested"}}}"#);
    let id = store.capture_create("svc", "charges", &body, None, None, 201).unwrap();
    assert_eq!(id, "ch_nested");
}

#[test]
fn capture_id_can_be_numeric() {
    let mut store = store();
    let id = store.capture_create("svc", "items", &json(r#"{"id": 42}"#), None, None, 201).unwrap();
    assert_eq!(id, "42");
}

#[test]
fn statechart_bound_to_collection_singular() {
    let mut store = bundled();
    store.capture_create("svc", "charges", &json(r#"{"id": "ch_state"}"#), None, None, 201).unwrap();
    let resource = store.lookup("svc", "charges", "ch_state").unwrap();
    assert_eq!(resource.statechart.as_deref(), Some("charge"));
    assert_eq!(resource.current_state.as_deref(), Some("created"));
}

#[test]
fn apply_transition_advances_state() {
    let mut store = bundled();
    store.capture_create("svc", "charges", &json(r#"{"id":"ch_trans"}"#), None, None, 201).unwrap();
    let next = store.apply_transition("svc", "charges", "ch_trans", "capture").unwrap();
    assert_eq!(next, "captured");
    let resource = store.lookup("svc", "charges", "ch_trans").unwrap();
    assert_eq!(resource.current_state.as_deref(), Some("captured"));
}

#[test]
fn invalid_transition_returns_none_and_keeps_state() {
    let mut store = bundled();
    store.capture_create("svc", "charges", &json(r#"{"id":"ch_inv"}"#), None, None, 201).unwrap();
    // refund is not valid from "created".
    assert!(store.apply_transition("svc", "charges", "ch_inv", "refund").is_none());
    let resource = store.lookup("svc", "charges", "ch_inv").unwrap();
    assert_eq!(resource.current_state.as_deref(), Some("created"));
}

#[test]
fn body_status_field_advances_with_transition() {
    let mut store = bundled();
    let body = json(r#"{"id":"ch_body","status":"created","amount":100}"#);
    store.capture_create("svc", "charges", &body, None, None, 201).unwrap();
    store.apply_transition("svc", "charges", "ch_body", "capture").unwrap();
    let resource = store.lookup("svc", "charges", "ch_body").unwrap();
    assert_eq!(value(&resource.body)["status"], "captured");
    assert_eq!(value(&resource.body)["amount"], 100);
}

#[test]
fn body_status_field_uses_configured_field_name() {
    let mut reg = StatechartRegistry::default();
    let mut queued = State { transitions: OrdMap::new() };
    queued.transitions.insert("ship".to_string(), "shipped".to_string());
    let mut states = OrdMap::new();
    states.insert("queued".to_string(), queued);
    states.insert("shipped".to_string(), State { transitions: OrdMap::new() });
    reg.insert_for_test(StateMachine {
        id: "package".to_string(),
        initial: "queued".to_string(),
        states,
        status_field: "stage".to_string(),
    });
    let mut store = ResourceStore::new(String::new(), Some(Arc::new(reg)));
    let body = json(r#"{"id":"pkg_1","stage":"queued","status":"queued"}"#);
    store.capture_create("svc", "package", &body, None, None, 201).unwrap();
    store.apply_transition("svc", "package", "pkg_1", "ship").unwrap();
    let resource = store.lookup("svc", "package", "pkg_1").unwrap();
    assert_eq!(value(&resource.body)["stage"], "shipped", "configured stage field should advance");
    assert_eq!(
        value(&resource.body)["status"],
        "queued",
        "non-configured field should not be touched"
    );
}

#[test]
fn status_field_that_is_no_string_stays() {
    let mut store = bundled();
    let body = json(r#"{"id":"ch","status":7}"#);
    store.capture_create("svc", "charges", &body, None, None, 201).unwrap();
    store.apply_transition("svc", "charges", "ch", "capture").unwrap();
    let resource = store.lookup("svc", "charges", "ch").unwrap();
    assert_eq!(value(&resource.body)["status"], 7);
}

#[test]
fn times_of_captures_and_transitions() {
    let mut store = bundled();
    let t0 = Timestamp { secs: 100, nanos: 1 };
    let t1 = Timestamp { secs: 200, nanos: 2 };
    store
        .capture_create_at("svc", "charges", &json(r#"{"id":"c"}"#), None, None, 201, t0)
        .unwrap();
    store.apply_transition_at("svc", "charges", "c", "capture", t1).unwrap();
    let r = store.lookup("svc", "charges", "c").unwrap();
    assert_eq!(r.created_at, t0);
    assert_eq!(r.updated_at, t1);
}

#[test]
fn delete_removes_the_resource() {
    let mut store = store();
    store.capture_create("svc", "charges", &json(r#"{"id":"ch_del"}"#), None, None, 201).unwrap();
    assert!(store.delete("svc", "charges", "ch_del"));
    assert!(store.lookup("svc", "charges", "ch_del").is_none());
    assert!(!store.delete("svc", "charges", "ch_del"));
}

fn captured(ids: &[(&str, u32)]) -> Vec<ResourceState> {
    let mut out = Vec::new();
    for (id, v) in ids {
        let mut s = store();
        let body = json(&format!(r#"{{"id":"{id}","v":{v}}}"#));
        s.capture_create("svc", "charges", &body, None, None, 201).unwrap();
        out.push(s.lookup("svc", "charges", id).unwrap());
    }
    out
}

fn file(name: &str, resources: Vec<ResourceState>, lines: usize) -> ResourceFile {
    ResourceFile { name: name.to_string(), resources, lines }
}

#[test]
fn persistence_writes_jsonl_on_capture() {
    let mut store = ResourceStore::new("dir".to_string(), None);
    let id = store
        .capture_create("svc-a", "charges", &json(r#"{"id":"ch_p"}"#), None, None, 201)
        .unwrap();
    assert_eq!(id, "ch_p");
    // The line that is appended holds the captured body.
    let line = store.lookup("svc-a", "charges", &id).unwrap();
    assert!(line.body.render().unwrap().contains("ch_p"));
    assert_eq!(line.status, 201);
    assert_eq!(store.resource_path("svc-a").as_deref(), Some("dir/resources/svc-a.jsonl"));
    assert_eq!(store.resources_dir().as_deref(), Some("dir/resources"));
    let none = ResourceStore::new(String::new(), None);
    assert!(none.resource_path("svc-a").is_none());
}

#[test]
fn load_from_disk_restores_in_memory_map() {
    let mut store = ResourceStore::new("d".to_string(), None);
    let compact = store.load_from_disk(vec![
        file("svc-l.jsonl", captured(&[("ch_l1", 1), ("ch_l2", 1)]), 2),
        file("notes.txt", captured(&[("x", 1)]), 1),
        file("empty.jsonl", vec![], 3),
    ]);
    assert!(compact.is_empty());
    assert!(store.lookup("svc-l", "charges", "ch_l1").is_some());
    assert!(store.lookup("svc-l", "charges", "ch_l2").is_some());
    assert_eq!(store.len(), 2);
}

#[test]
fn load_from_disk_compacts_duplicate_lines() {
    let mut store = ResourceStore::new("d".to_string(), None);
    let compact = store.load_from_disk(vec![file(
        "svc-c.jsonl",
        captured(&[("ch_dupe", 1), ("ch_dupe", 2), ("ch_dupe", 3)]),
        3,
    )]);
    assert_eq!(compact, vec!["svc-c.jsonl".to_string()]);
    assert_eq!(store.list("svc-c").len(), 1);
    // The last line wins.
    let resource = store.lookup("svc-c", "charges", "ch_dupe").unwrap();
    assert_eq!(value(&resource.body)["v"], 3);
}

#[test]
fn load_then_load_again_is_idempotent() {
    let mut store = ResourceStore::new("d".to_string(), None);
    store.load_from_disk(vec![file("svc.jsonl", captured(&[("ch_i", 1)]), 1)]);
    let count_a = store.len();
    store.load_from_disk(vec![file("svc.jsonl", captured(&[("ch_i", 1)]), 1)]);
    let count_b = store.len();
    assert_eq!(count_a, count_b, "second load_from_disk should not duplicate entries");
}

#[test]
fn nothing_is_loaded_without_a_directory() {
    let mut s = store();
    assert!(s.load_from_disk(vec![file("svc.jsonl", captured(&[("a", 1)]), 9)]).is_empty());
    assert!(s.is_empty());
}

#[test]
fn list_returns_all_resources_for_service() {
    let mut store = store();
    for (svc, body) in
        [("svc", r#"{"id":"ch_a"}"#), ("svc", r#"{"id":"ch_b"}"#), ("other", r#"{"id":"ch_c"}"#)]
    {
        store.capture_create(svc, "charges", &json(body), None, None, 201).unwrap();
    }
    let list = store.list("svc");
    assert_eq!(list.len(), 2);
    let ids: Vec<&str> = list.iter().map(|r| r.id.as_str()).collect();
    assert!(ids.contains(&"ch_a"));
    assert!(ids.contains(&"ch_b"));
    assert!(store.list("nobody").is_empty());
}

#[test]
fn extract_id_handles_top_level_id() {
    assert_eq!(extract_id(&json(r#"{"id": "x"}"#), "things", None).as_deref(), Some("x"));
}

#[test]
fn extract_id_prefers_top_level_over_nested() {
    let body = json(r#"{"id": "outer", "data": {"id": "inner"}}"#);
    assert_eq!(extract_id(&body, "things", None).as_deref(), Some("outer"));
}

#[test]
fn extract_id_respects_max_depth() {
    let body = json(r#"{"a": {"b": {"c": {"d": {"e": {"id": "deep"}}}}}}"#);
    assert!(extract_id(&body, "things", None).is_none());
}

#[test]
fn extract_id_skips_fields_that_are_no_ids() {
    assert!(extract_id(&json(r#"{"id": true}"#), "things", None).is_none());
    assert_eq!(
        extract_id(&json(r#"{"id": null, "_id": "u"}"#), "things", None).as_deref(),
        Some("u")
    );
    assert!(extract_id(&json(r#"["id"]"#), "things", None).is_none());
}

#[test]
fn resource_files() {
    assert_eq!(service_of_resource_file("a.jsonl").as_deref(), Some("a"));
    assert_eq!(service_of_resource_file("a.jsonl.jsonl").as_deref(), Some("a.jsonl"));
    assert_eq!(service_of_resource_file("a.json"), None);
    assert_eq!(resource_lines("a\n \n\nb\r\n"), vec!["a".to_string(), "b".to_string()]);
}

#[test]
fn captured_resources_survive_a_reload() {
    let mut a = ResourceStore::new("d".to_string(), None);
    let mut lines = Vec::new();
    for (svc, body) in [("a.jsonl", r#"{"id":"x"}"#), ("a", r#"{"id":"y"}"#)] {
        let id = a.capture_create(svc, "charges", &json(body), None, None, 201).unwrap();
        lines.push((svc, a.lookup(svc, "charges", &id).unwrap()));
    }
    let mut b = ResourceStore::new("d".to_string(), None);
    for (svc, line) in lines {
        let path = a.resource_path(svc).unwrap();
        let name = path.strip_prefix("d/resources/").unwrap();
        assert!(b.load_from_disk(vec![file(name, vec![line], 1)]).is_empty());
    }
    assert!(b.lookup("a.jsonl", "charges", "x").is_some());
    assert!(b.lookup("a", "charges", "y").is_some());
    assert!(b.lookup("a", "charges", "x").is_none());
    assert_eq!(b.len(), a.len());
}
