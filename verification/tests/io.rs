//! The mock library and its files.
use gostly::dup::Dup;
use gostly::files::choose_initial_mode;
use gostly::files::compacted_text;
use gostly::files::log_line;
use gostly::files::mock_log_path;
use gostly::files::mode_file_text;
use gostly::files::parse_mode_file;
use gostly::files::poll_interval_ms;
use gostly::files::sequences_text;
use gostly::files::service_of_mock_file;
use gostly::files::setting;
use gostly::files::tmp_path;
use gostly::files::traffic_log_path;
use gostly::files::ReloadStrategy;
use gostly::io::build_segment;
use gostly::io::library_from_entries;
use gostly::io::load_all_service_mocks;
use gostly::io::reload_one_file;
use gostly::io::reload_segment;
use gostly::io::MockLibrary;
use gostly::io::MockSegment;
use gostly::ordmap::OrdMap;
use gostly::types::MockEntry;
use gostly::types::MockRequest;
use gostly::types::MockResponse;
use gostly::types::Mode;
use gostly::types::GLOBAL_TENANT;

fn entry(id: &str, method: &str, uri: &str, tenant: &str) -> MockEntry {
    MockEntry {
        id: id.to_string(),
        timestamp: "2026-05-01T00:00:00Z".to_string(),
        request: MockRequest {
            method: method.to_string(),
            uri: uri.to_string(),
            body: String::new(),
        },
        response: MockResponse {
            status: 200,
            headers: OrdMap::new(),
            body: "ok".to_string(),
            latency_ms: 0,
        },
        service_id: None,
        tenant: tenant.to_string(),
    }
}

fn global(id: &str, method: &str, uri: &str) -> MockEntry {
    entry(id, method, uri, GLOBAL_TENANT)
}

#[test]
fn load_all_service_mocks_empty_dir_returns_empty() {
    let lib = load_all_service_mocks(vec![]);
    assert!(lib.segments.is_empty(), "empty dir must yield empty library");
    assert_eq!(lib.total_count(), 0);
    assert_eq!(lib.service_count(), 0);
}

#[test]
fn load_all_service_mocks_picks_up_jsonl_files_and_skips_others() {
    let lib = load_all_service_mocks(vec![
        ("mock_svc-a.jsonl".to_string(), vec![global("e1", "GET", "/users")]),
        ("random.txt".to_string(), vec![global("e2", "GET", "/noise")]),
        ("traffic_other.jsonl".to_string(), vec![global("e3", "GET", "/noise")]),
    ]);
    assert_eq!(lib.segments.len(), 1);
    let seg = lib.segments.get(&"svc-a".to_string()).expect("svc-a segment missing");
    let svc = seg.services.get(&"svc-a".to_string()).expect("svc-a service map missing");
    assert!(svc.contains_key(&(
        "GET".to_string(),
        "/users".to_string(),
        GLOBAL_TENANT.to_string()
    )));
}

#[test]
fn load_all_service_mocks_dedupes_by_method_uri_last_write_wins() {
    let lib = load_all_service_mocks(vec![(
        "mock_svc.jsonl".to_string(),
        vec![global("first", "GET", "/users"), global("second", "GET", "/users")],
    )]);
    assert_eq!(lib.total_count(), 1);
    assert_eq!(lib.find_exact("svc", "GET", "/users", "_global").unwrap().id, "second");
}

#[test]
fn load_all_service_mocks_skips_files_with_only_invalid_lines() {
    let lib = load_all_service_mocks(vec![("mock_svc.jsonl".to_string(), vec![])]);
    assert!(lib.segments.is_empty(), "service with no parseable entries must be omitted");
}

#[test]
fn load_all_service_mocks_compacts_duplicate_lines_on_disk() {
    let lib = load_all_service_mocks(vec![(
        "mock_svc.jsonl".to_string(),
        vec![global("a", "GET", "/x"), global("b", "GET", "/x"), global("c", "POST", "/y")],
    )]);
    let lines: Vec<String> =
        lib.entries_for_service("svc", None).iter().map(|e| e.id.clone()).collect();
    let after = compacted_text(&lines);
    assert_eq!(after.lines().count(), 2, "one line per unique endpoint");
    assert_eq!(after, "b\nc\n");
}

#[test]
fn reload_replaces_one_segment() {
    let mut lib = load_all_service_mocks(vec![
        ("mock_a.jsonl".to_string(), vec![global("a1", "GET", "/a")]),
        ("mock_b.jsonl".to_string(), vec![global("b1", "GET", "/b")]),
    ]);
    let svc = reload_one_file(&mut lib, "mock_a.jsonl", vec![global("a2", "GET", "/a")]);
    assert_eq!(svc.as_deref(), Some("a"));
    assert_eq!(lib.find_exact("a", "GET", "/a", "_global").unwrap().id, "a2");
    assert_eq!(lib.find_exact("b", "GET", "/b", "_global").unwrap().id, "b1");
    assert_eq!(reload_one_file(&mut lib, "notes.txt", vec![global("x", "GET", "/a")]), None);
    assert_eq!(lib.total_count(), 2);
    reload_one_file(&mut lib, "mock_b.jsonl", vec![]);
    assert_eq!(lib.segments.len(), 1);
    assert!(lib.find_exact("b", "GET", "/b", "_global").is_none());
}

#[test]
fn segment_of_a_file() {
    let (name, seg) = reload_segment("mock_s.jsonl", vec![global("1", "GET", "/")]).unwrap();
    assert_eq!(name, "s");
    assert_eq!(seg.services.len(), 1);
    assert!(reload_segment("mock_s.jsonl", vec![]).is_none());
    assert!(reload_segment("s.jsonl", vec![global("1", "GET", "/")]).is_none());
    assert!(build_segment("s", vec![]).is_none());
}

#[test]
fn snapshot_keeps_its_entries() {
    let mut live = MockLibrary::new();
    live.record("_global", global("v1", "GET", "/snap"));
    let snapshot = live.dup();
    live.record("_global", global("v2", "GET", "/snap"));
    assert_eq!(snapshot.find_exact("_global", "GET", "/snap", "_global").unwrap().id, "v1");
    assert_eq!(live.find_exact("_global", "GET", "/snap", "_global").unwrap().id, "v2");
}

#[test]
fn tenants_do_not_see_each_other() {
    let mut lib = MockLibrary::new();
    lib.record("_global", entry("a", "GET", "/x", "alice"));
    lib.record("_global", entry("b", "GET", "/x", "bob"));
    assert_eq!(lib.find_exact("_global", "GET", "/x", "alice").unwrap().id, "a");
    assert_eq!(lib.find_exact("_global", "GET", "/x", "bob").unwrap().id, "b");
    assert!(lib.find_exact("_global", "GET", "/x", "_global").is_none());
    let scoped = lib.all_entries(Some("alice"));
    assert_eq!(scoped.len(), 1);
    assert_eq!(scoped[0].id, "a");
    assert_eq!(lib.all_entries(None).len(), 2);
    assert_eq!(lib.entries_for_service("_global", Some("bob")).len(), 1);
    assert!(lib.entries_for_service("nobody", None).is_empty());
}

#[test]
fn created_entries_go_to_the_global_segment() {
    let mut lib = MockLibrary::new();
    let mut e = global("c", "GET", "/c");
    e.service_id = Some("svc".to_string());
    lib.create(e);
    lib.create(global("d", "GET", "/d"));
    assert_eq!(lib.segments.len(), 1);
    assert!(lib.segments.get(&"_global".to_string()).is_some());
    assert_eq!(lib.find_exact("svc", "GET", "/c", "_global").unwrap().id, "c");
    assert_eq!(lib.find_exact("_global", "GET", "/d", "_global").unwrap().id, "d");
    assert_eq!(lib.service_count(), 2);
}

#[test]
fn library_of_a_list_of_entries() {
    let mut e = global("1", "GET", "/1");
    e.service_id = Some("svc".to_string());
    let lib = library_from_entries(vec![e, global("2", "GET", "/2"), global("3", "GET", "/2")]);
    assert_eq!(lib.segments.len(), 1);
    assert_eq!(lib.total_count(), 2);
    assert_eq!(lib.find_exact("_global", "GET", "/2", "_global").unwrap().id, "3");
}

#[test]
fn same_service_in_two_segments_counts_once() {
    let mut lib = MockLibrary::new();
    lib.insert_into("f1", "svc", global("1", "GET", "/1"));
    lib.insert_into("f2", "svc", global("2", "GET", "/2"));
    assert_eq!(lib.service_count(), 1);
    assert_eq!(lib.total_count(), 2);
    assert_eq!(lib.entries_for_service("svc", None).len(), 2);
    lib.replace_segment("f1", None);
    assert_eq!(lib.total_count(), 1);
    lib.replace_segment("f2", Some(MockSegment::new()));
    assert_eq!(lib.total_count(), 0);
}

#[test]
fn append_to_traffic_log_writes_per_service_files() {
    assert_eq!(traffic_log_path("d", "svc-a"), "d/traffic_svc-a.jsonl");
    assert_eq!(traffic_log_path("d", "svc-b"), "d/traffic_svc-b.jsonl");
    assert_eq!(mock_log_path("d", "svcX"), "d/mock_svcX.jsonl");
    assert_eq!(log_line(r#"{"a":1}"#), "{\"a\":1}\n");
    assert_eq!(tmp_path("p"), "p.tmp");
}

#[test]
fn names_of_mock_files() {
    assert_eq!(service_of_mock_file("mock_svc.jsonl").as_deref(), Some("svc"));
    assert_eq!(service_of_mock_file("mock_.jsonl").as_deref(), Some(""));
    assert_eq!(service_of_mock_file("mock__global.jsonl").as_deref(), Some("_global"));
    assert_eq!(service_of_mock_file("traffic_svc.jsonl"), None);
    assert_eq!(service_of_mock_file("mock_svc.json"), None);
}

#[test]
fn save_sequences_empty_writes_empty_file() {
    assert_eq!(sequences_text(&vec![]), "");
    assert_eq!(sequences_text(&vec!["a".to_string(), "b".to_string()]), "a\nb\n");
}

#[test]
fn read_mode_from_file_returns_none_for_unrecognised_label() {
    assert!(parse_mode_file("FROBNICATED").is_none());
    assert!(parse_mode_file("").is_none());
    assert!(parse_mode_file("mock").is_none());
    assert!(parse_mode_file("MO\"CK").is_none());
}

#[test]
fn write_mode_to_file_writes_each_concrete_variant() {
    for (mode, label) in
        [(Mode::Learn, "LEARN"), (Mode::Mock, "MOCK"), (Mode::Passthrough, "PASSTHROUGH")]
    {
        let content = mode_file_text(&mode).unwrap();
        assert_eq!(content, label);
        assert_eq!(parse_mode_file(&content), Some(mode));
    }
}

#[test]
fn write_mode_to_file_skips_transitioning_variant() {
    assert!(mode_file_text(&Mode::Transitioning).is_none());
}

#[test]
fn read_mode_from_file_trims_whitespace() {
    assert_eq!(parse_mode_file("MOCK\n"), Some(Mode::Mock));
    assert_eq!(parse_mode_file(" \tTRANSITIONING "), Some(Mode::Transitioning));
}

#[test]
fn initial_mode_comes_from_the_file_then_the_variable() {
    assert_eq!(choose_initial_mode(Some(Mode::Mock), Some("LEARN")), Mode::Mock);
    assert_eq!(choose_initial_mode(None, Some("passthrough")), Mode::Passthrough);
    assert_eq!(choose_initial_mode(None, Some("mock")), Mode::Mock);
    assert_eq!(choose_initial_mode(None, Some("TRANSITIONING")), Mode::Learn);
    assert_eq!(choose_initial_mode(None, None), Mode::Learn);
}

#[test]
fn reload_settings() {
    assert_eq!(ReloadStrategy::from_value(Some("signal")), ReloadStrategy::Signal);
    assert_eq!(ReloadStrategy::from_value(Some("poll")), ReloadStrategy::Poll);
    assert_eq!(ReloadStrategy::from_value(Some("http_admin")), ReloadStrategy::HttpAdmin);
    assert_eq!(ReloadStrategy::from_value(Some("")), ReloadStrategy::FsWatch);
    assert_eq!(ReloadStrategy::from_value(None), ReloadStrategy::FsWatch);
    assert_eq!(poll_interval_ms(Some("250")), 250);
    assert_eq!(poll_interval_ms(Some("soon")), 30_000);
    assert_eq!(setting(Some("+7"), 10, 1), 7);
    assert_eq!(setting(Some("11"), 10, 1), 1);
}

#[test]
fn lists_of_services_and_tenants_share_all_entries() {
    let mut lib = MockLibrary::new();
    lib.record("a", entry("1", "GET", "/1", "t1"));
    lib.record("a", entry("2", "GET", "/2", "t2"));
    lib.record("b", entry("3", "GET", "/1", "t1"));
    assert_eq!(lib.all_entries(None).len(), lib.total_count());
    let ids = |es: Vec<MockEntry>| {
        let mut v: Vec<String> = es.into_iter().map(|e| e.id).collect();
        v.sort();
        v
    };
    let mut by_service = lib.entries_for_service("b", None);
    by_service.extend(lib.entries_for_service("a", None));
    assert_eq!(ids(by_service), ids(lib.all_entries(None)));
    let mut by_tenant = lib.all_entries(Some("t2"));
    by_tenant.extend(lib.all_entries(Some("t1")));
    assert_eq!(ids(by_tenant), ids(lib.all_entries(None)));
}
