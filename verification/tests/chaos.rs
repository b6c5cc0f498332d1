//! Chaos configuration: patterns, latency, errors and scrubbed paths.
use gostly::chaos::compute_latency_ms;
use gostly::chaos::default_degraded_error_rate;
use gostly::chaos::default_degraded_latency_mult;
use gostly::chaos::default_distribution;
use gostly::chaos::default_dwell_degraded_ms;
use gostly::chaos::default_dwell_healthy_ms;
use gostly::chaos::draw_error;
use gostly::chaos::draws_twice;
use gostly::chaos::find_endpoint_rule;
use gostly::chaos::glob_match;
use gostly::chaos::has_weight;
use gostly::chaos::is_long_numeric;
use gostly::chaos::is_positive;
use gostly::chaos::is_uuid;
use gostly::chaos::latency_span;
use gostly::chaos::scrub_path;
use gostly::chaos::ChaosConfig;
use gostly::chaos::ChaosModel;
use gostly::chaos::EndpointRule;
use gostly::chaos::ErrorCodeEntry;
use gostly::chaos::LatencyJitter;
use gostly::chaos::MarkovConfig;

#[test]
fn glob_exact() {
    assert!(glob_match("/api/orders", "/api/orders"));
}

#[test]
fn glob_one_segment() {
    assert!(glob_match("/api/orders/*", "/api/orders/42"));
}

#[test]
fn glob_one_segment_no() {
    assert!(!glob_match("/api/orders/*", "/api/orders/42/items"));
}

#[test]
fn glob_deep() {
    assert!(glob_match("/api/orders/**", "/api/orders/42/items"));
}

#[test]
fn glob_deep_zero_segs() {
    assert!(glob_match("/api/orders/**", "/api/orders"));
}

#[test]
fn glob_middle_wildcard() {
    assert!(glob_match("/api/*/items", "/api/orders/items"));
}

#[test]
fn glob_no_match() {
    assert!(!glob_match("/api/orders", "/api/users"));
}

#[test]
fn glob_double_star_in_the_middle() {
    assert!(glob_match("/api/**/items", "/api/items"));
    assert!(glob_match("/api/**/items", "/api/a/b/items"));
    assert!(!glob_match("/api/**/items", "/api/a/b/item"));
    assert!(glob_match("/api/**/**", "/api"));
    assert!(glob_match("/api/**/**", "/api/a"));
    assert!(!glob_match("/api/**/*", "/api"));
}

#[test]
fn scrub_uuid() {
    assert_eq!(
        scrub_path("/api/orders/8f3a1b2c-1234-5678-9abc-def012345678"),
        "/api/orders/{id}"
    );
}

#[test]
fn scrub_numeric() {
    assert_eq!(scrub_path("/api/orders/123456"), "/api/orders/{id}");
}

#[test]
fn scrub_short_numeric_kept() {
    assert_eq!(scrub_path("/api/v2/orders"), "/api/v2/orders");
}

#[test]
fn scrub_query_stripped() {
    assert_eq!(scrub_path("/api/orders?token=secret&user=42"), "/api/orders");
}

#[test]
fn scrub_root() {
    assert_eq!(scrub_path("/"), "/");
}

#[test]
fn scrub_no_double_leading_slash() {
    // A path that starts with '/' must not produce '//'.
    assert_eq!(scrub_path("/api/v2/orders"), "/api/v2/orders");
    assert!(!scrub_path("/api").starts_with("//"));
    assert!(!scrub_path("/").starts_with("//"));
}

#[test]
fn scrub_relative_path() {
    // A path without a leading '/' stays relative.
    assert_eq!(scrub_path("api/orders"), "api/orders");
}

#[test]
fn scrub_empty() {
    assert_eq!(scrub_path(""), "/");
}

#[test]
fn scrub_collapses_slashes() {
    assert_eq!(scrub_path("//a///12345/"), "/a/{id}");
}

#[test]
fn ids_that_are_scrubbed() {
    assert!(is_uuid("8f3a1b2c-1234-5678-9abc-def012345678"));
    assert!(is_uuid("8F3A1B2C-1234-5678-9ABC-DEF012345678"));
    assert!(!is_uuid("8f3a1b2c-1234-5678-9abc-def01234567"));
    assert!(!is_uuid("8f3a1b2cx1234-5678-9abc-def012345678"));
    assert!(!is_uuid("8f3a1b2g-1234-5678-9abc-def012345678"));
    assert!(is_long_numeric("12345"));
    assert!(!is_long_numeric("1234"));
    assert!(!is_long_numeric("12345a"));
}

#[test]
fn draw_error_weighted() {
    let cc = ChaosConfig {
        error_codes: vec![ErrorCodeEntry {
            status: 500,
            weight: 1.0f64.to_bits(),
            body: None,
            headers: None,
        }],
        ..Default::default()
    };
    let d = draw_error(&cc, &vec![true]).expect("should draw");
    assert_eq!(d.status, 500);
}

#[test]
fn draw_error_legacy_fallback() {
    let cc = ChaosConfig { error_status: 503, error_body: "down".into(), ..Default::default() };
    let d = draw_error(&cc, &vec![]).expect("should draw legacy");
    assert_eq!(d.status, 503);
    assert_eq!(d.body, "down");
}

#[test]
fn draw_error_none() {
    let cc = ChaosConfig::default();
    assert!(draw_error(&cc, &vec![]).is_none());
}

fn entry(status: u16, weight: f64) -> ErrorCodeEntry {
    ErrorCodeEntry { status, weight: weight.to_bits(), body: Some(format!("e{status}")), headers: None }
}

#[test]
fn draw_takes_the_first_weight_that_was_reached() {
    let cc = ChaosConfig {
        error_codes: vec![entry(500, 1.0), entry(502, 2.0), entry(503, 3.0)],
        error_status: 418,
        ..Default::default()
    };
    assert!(has_weight(&cc));
    assert_eq!(draw_error(&cc, &vec![false, true, true]).unwrap().status, 502);
    assert_eq!(draw_error(&cc, &vec![false, true, true]).unwrap().body, "e502");
    // Rounding can leave every weight short: the last entry counts.
    assert_eq!(draw_error(&cc, &vec![false, false, false]).unwrap().status, 503);
}

#[test]
fn errors_without_weight_leave_the_single_one() {
    let cc = ChaosConfig {
        error_codes: vec![entry(500, 0.0), entry(502, -1.0)],
        error_status: 418,
        ..Default::default()
    };
    assert!(!has_weight(&cc));
    assert_eq!(draw_error(&cc, &vec![true, true]).unwrap().status, 418);
}

#[test]
fn bits_of_positive_numbers() {
    assert!(is_positive(0.1f64.to_bits()));
    assert!(is_positive(f64::INFINITY.to_bits()));
    assert!(!is_positive(0.0f64.to_bits()));
    assert!(!is_positive((-0.0f64).to_bits()));
    assert!(!is_positive((-1.0f64).to_bits()));
    assert!(!is_positive(f64::NAN.to_bits()));
}

#[test]
fn latency_legacy() {
    let cc = ChaosConfig { latency_ms: 100, ..Default::default() };
    assert_eq!(latency_span(&cc), 0);
    assert_eq!(compute_latency_ms(&cc, 0), 100);
}

#[test]
fn latency_jitter_in_range() {
    let cc = ChaosConfig {
        latency_jitter: Some(LatencyJitter {
            min_ms: 100,
            max_ms: 200,
            distribution: "uniform".into(),
        }),
        ..Default::default()
    };
    assert_eq!(latency_span(&cc), 100);
    for offset in 0..=latency_span(&cc) {
        let v = compute_latency_ms(&cc, offset);
        assert!(v >= 100 && v <= 200, "got {v}");
    }
}

#[test]
fn latency_distribution_decides_the_draws() {
    let mut cc = ChaosConfig {
        latency_jitter: Some(LatencyJitter {
            min_ms: 5,
            max_ms: 1,
            distribution: "normal".into(),
        }),
        ..Default::default()
    };
    assert!(draws_twice(&cc));
    // The bounds can stand in either order.
    assert_eq!(latency_span(&cc), 4);
    assert_eq!(compute_latency_ms(&cc, 0), 1);
    cc.latency_jitter = Some(LatencyJitter {
        min_ms: 1,
        max_ms: 5,
        distribution: default_distribution(),
    });
    assert!(!draws_twice(&cc));
    assert_eq!(compute_latency_ms(&cc, 4), 5);
    cc.latency_jitter =
        Some(LatencyJitter { min_ms: 9, max_ms: 0, distribution: default_distribution() });
    assert_eq!(compute_latency_ms(&cc, 0), 0);
}

#[test]
fn first_matching_rule_counts() {
    let rules = vec![
        EndpointRule {
            uri_pattern: "/api/slow/*".into(),
            config: ChaosConfig { latency_ms: 1, ..Default::default() },
        },
        EndpointRule {
            uri_pattern: "/api/**".into(),
            config: ChaosConfig { latency_ms: 2, ..Default::default() },
        },
    ];
    assert_eq!(find_endpoint_rule(&rules, "/api/slow/1?x=1").unwrap().latency_ms, 1);
    assert_eq!(find_endpoint_rule(&rules, "/api/other").unwrap().latency_ms, 2);
    assert!(find_endpoint_rule(&rules, "/other").is_none());
}

#[test]
fn defaults_of_the_markov_model() {
    let m = MarkovConfig::default();
    assert_eq!(m.mean_dwell_healthy_ms, 30_000);
    assert_eq!(m.mean_dwell_degraded_ms, 5_000);
    assert_eq!(f64::from_bits(m.degraded_error_rate), 0.6);
    assert_eq!(f64::from_bits(m.degraded_latency_mult), 5.0);
    assert_eq!(default_dwell_healthy_ms(), 30_000);
    assert_eq!(default_dwell_degraded_ms(), 5_000);
    assert_eq!(f64::from_bits(default_degraded_error_rate()), 0.6);
    assert_eq!(f64::from_bits(default_degraded_latency_mult()), 5.0);
}

#[test]
fn default_config_does_nothing() {
    let cc = ChaosConfig::default();
    assert!(!cc.enabled);
    assert_eq!(f64::from_bits(cc.error_rate), 0.0);
    assert!(cc.modes.is_empty());
    assert_eq!(cc.chaos_model, ChaosModel::Uniform);
    assert_eq!(compute_latency_ms(&cc, 0), 0);
}

#[test]
fn a_scrubbed_path_stays_as_it_is() {
    for p in ["/api//orders/123456?x=1", "", "a/12345/", "/"] {
        let once = scrub_path(p);
        assert_eq!(scrub_path(&once), once);
        assert!(once.split('/').all(|s| s != "123456" && s != "12345"));
    }
    assert_eq!(scrub_path("a/12345/"), "a/{id}");
}
