//! Arguments, settings and messages.
use gostly::cli::apply_start_args_to_env;
use gostly::cli::const_format_version;
use gostly::cli::invalid_json_message;
use gostly::cli::log_path;
use gostly::cli::mode_set_message;
use gostly::cli::no_log_message;
use gostly::cli::nothing_to_stop_message;
use gostly::cli::pid_in_file;
use gostly::cli::pid_in_listing;
use gostly::cli::pidfile_path;
use gostly::cli::proxy_base;
use gostly::cli::proxy_url;
use gostly::cli::read_settings;
use gostly::cli::refused_message;
use gostly::cli::stop_outcome;
use gostly::cli::unreachable_message;
use gostly::cli::version_with_metadata;
use gostly::cli::ExportFormat;
use gostly::cli::ModeArg;
use gostly::cli::StartArgs;
use gostly::files::ReloadStrategy;
use gostly::ordmap::OrdMap;

#[test]
fn cli_version_string_format_is_stable() {
    let v = version_with_metadata(None);
    assert!(v.starts_with('v'), "version must start with v: {v}");
    assert!(v.contains("commit "), "version must include commit: {v}");
    assert!(v.ends_with(", oss)"), "version must end with feature flavour: {v}");
    assert_eq!(v, format!("{} (commit dev, oss)", const_format_version()));
    assert_eq!(version_with_metadata(Some("7688c16")), "v0.3.0 (commit 7688c16, oss)");
}

#[test]
fn cli_start_args_default_port_and_mode() {
    let args = StartArgs::default();
    assert_eq!(args.port, 8080);
    assert_eq!(args.data_dir, "./data");
    assert_eq!(args.mode, ModeArg::Learn);
    assert!(args.upstream.is_none());
}

#[test]
fn mode_arg_as_str_is_uppercase() {
    assert_eq!(ModeArg::Learn.as_str(), "LEARN");
    assert_eq!(ModeArg::Mock.as_str(), "MOCK");
    assert_eq!(ModeArg::Passthrough.as_str(), "PASSTHROUGH");
}

#[test]
fn export_format_as_str_is_lowercase() {
    assert_eq!(ExportFormat::Openapi.as_str(), "openapi");
    assert_eq!(ExportFormat::Postman.as_str(), "postman");
    assert_eq!(ExportFormat::Har.as_str(), "har");
}

fn env(pairs: &[(&str, &str)]) -> OrdMap<String, String> {
    let mut m = OrdMap::new();
    for (k, v) in pairs {
        m.insert(k.to_string(), v.to_string());
    }
    m
}

#[test]
fn start_arguments_become_variables() {
    let args = StartArgs {
        upstream: Some("https://api.example.com".to_string()),
        port: 9000,
        data_dir: "/var/gostly//".to_string(),
        mode: ModeArg::Mock,
    };
    let vars = apply_start_args_to_env(&args);
    let mut m = env(&[("PROXY_PORT", "1"), ("MOCK_DIR", "elsewhere")]);
    for (k, v) in vars {
        m.insert(k, v);
    }
    let s = read_settings(&m);
    assert_eq!(s.backend_url, "https://api.example.com");
    assert_eq!(s.port, 9000);
    assert_eq!(s.mock_dir, "/var/gostly/mocks");
    assert_eq!(s.sequence_file_path, "/var/gostly/sequences.jsonl");
    assert_eq!(s.mode_file_path, "/var/gostly/mode.txt");
    assert_eq!(s.traffic_log_dir, "/var/gostly/traffic");
    assert_eq!(m.get(&"INITIAL_MODE".to_string()).unwrap(), "MOCK");
}

#[test]
fn start_without_upstream_leaves_the_variable() {
    let vars = apply_start_args_to_env(&StartArgs::default());
    assert_eq!(vars.len(), 6);
    assert!(vars.iter().all(|(k, _)| k != "BACKEND_URL"));
    assert_eq!(vars[1].1, "./data/mocks");
}

#[test]
fn settings_have_defaults() {
    let s = read_settings(&env(&[]));
    assert_eq!(s.backend_url, "http://127.0.0.1:3000");
    assert_eq!(s.port, 8080);
    assert_eq!(s.mock_dir, "data/mocks");
    assert_eq!(s.sequence_file_path, "data/sequences.jsonl");
    assert_eq!(s.mode_file_path, "data/mode.txt");
    assert_eq!(s.traffic_log_dir, "data/traffic");
    assert_eq!(s.max_body_bytes, 1_048_576);
    assert!(!s.smart_swap_enabled);
    assert!(!s.json_logs);
    assert!(!s.accept_invalid_certs);
    assert_eq!(s.log_level, "info");
    assert_eq!(s.redact_headers.len(), 16);
    assert_eq!(s.reload, ReloadStrategy::FsWatch);
    assert_eq!(s.poll_ms, 30_000);
}

#[test]
fn settings_are_read() {
    let s = read_settings(&env(&[
        ("PROXY_PORT", "65536"),
        ("MAX_BODY_BYTES", "10"),
        ("SMART_SWAP_ENABLED", "TrUe"),
        ("LOG_FORMAT", "json"),
        ("ACCEPT_INVALID_CERTS", "TRUE"),
        ("REDACT_HEADERS", " X-Secret, ,Cookie,x-secret"),
        ("MOCK_RELOAD_STRATEGY", "poll"),
        ("MOCK_RELOAD_POLL_MS", "250"),
    ]));
    // A port that does not fit counts as none.
    assert_eq!(s.port, 8080);
    assert_eq!(s.max_body_bytes, 10);
    assert!(s.smart_swap_enabled);
    assert!(s.json_logs);
    assert!(!s.accept_invalid_certs);
    assert_eq!(s.redact_headers.len(), 17);
    assert_eq!(s.redact_headers[16], "x-secret");
    assert_eq!(s.reload, ReloadStrategy::Poll);
    assert_eq!(s.poll_ms, 250);
}

#[test]
fn client_urls_and_messages() {
    assert_eq!(proxy_base(8080), "http://127.0.0.1:8080");
    assert_eq!(proxy_url(1, "/ghost/mode"), "http://127.0.0.1:1/ghost/mode");
    assert_eq!(mode_set_message(ModeArg::Mock, " {} \n"), "mode set to MOCK ({})");
    assert_eq!(unreachable_message("u", "e"), "could not reach proxy at u: e");
    assert_eq!(invalid_json_message("u", "e"), "invalid JSON from u: e");
    assert_eq!(refused_message("500", "t"), "proxy returned 500: t");
    assert_eq!(log_path("./data/"), "./data/proxy.log");
    assert_eq!(
        no_log_message("p"),
        "no log file at p. Redirect the proxy with `gostly start ... 2>&1 | tee p` or set LOG_FORMAT=json and pipe to your log shipper."
    );
}

#[test]
fn pids_are_read() {
    assert_eq!(pidfile_path("data//"), "data/gostly.pid");
    assert_eq!(pid_in_file("4242"), Some(4242));
    assert_eq!(pid_in_file(" 4242\n"), Some(4242));
    assert_eq!(pid_in_file("x"), None);
    assert_eq!(pid_in_file(""), None);
    assert_eq!(pid_in_file("2147483648"), None);
    assert_eq!(pid_in_file("-1"), Some(-1));
    assert_eq!(pid_in_listing("17\n18\n"), Some(17));
    assert_eq!(pid_in_listing(""), None);
    assert_eq!(pid_in_listing("\n18\n"), None);
}

#[test]
fn outcomes_of_stopping() {
    assert_eq!(stop_outcome(7, 0, None, "").unwrap(), "sent SIGTERM to proxy (pid 7)");
    assert_eq!(
        stop_outcome(7, -1, Some(3), "No such process").unwrap(),
        "proxy (pid 7) was not running"
    );
    assert_eq!(
        stop_outcome(7, -1, Some(1), "Operation not permitted").unwrap_err(),
        "kill(pid=7, SIGTERM) failed: Operation not permitted"
    );
    assert_eq!(
        nothing_to_stop_message("f"),
        "no running proxy found (pidfile f absent and no gostly-agent in pgrep)"
    );
}
