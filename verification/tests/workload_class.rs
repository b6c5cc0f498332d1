//! Who sent a request.
use gostly::headers::RequestHeaders;
use gostly::workload_class::classify;
use gostly::workload_class::infer_workload_class;
use gostly::workload_class::matches_any_substring;
use gostly::workload_class::WorkloadClass;

fn empty() -> RequestHeaders {
    RequestHeaders::new()
}

fn with(pairs: &[(&str, &str)]) -> RequestHeaders {
    let mut h = RequestHeaders::new();
    for (k, v) in pairs {
        h.push(k, Some(v));
    }
    h
}

#[test]
fn wire_form_round_trips_for_every_variant() {
    for c in [
        WorkloadClass::Human,
        WorkloadClass::Ci,
        WorkloadClass::Agent,
        WorkloadClass::Unknown,
    ] {
        assert_eq!(WorkloadClass::from_str_or_unknown(c.as_str()), c);
    }
}

#[test]
fn unrecognised_wire_form_decodes_as_unknown() {
    assert_eq!(WorkloadClass::from_str_or_unknown(""),       WorkloadClass::Unknown);
    assert_eq!(WorkloadClass::from_str_or_unknown("HUMAN"),  WorkloadClass::Unknown);
    assert_eq!(WorkloadClass::from_str_or_unknown("robot"),  WorkloadClass::Unknown);
}

#[test]
fn ci_via_user_agent_github_hookshot() {
    let r = infer_workload_class(&empty(), "GitHub-Hookshot/abc123");
    assert_eq!(r, WorkloadClass::Ci);
}

#[test]
fn ci_via_user_agent_circle_ci() {
    let r = infer_workload_class(&empty(), "CircleCI/2.7.1");
    assert_eq!(r, WorkloadClass::Ci);
}

#[test]
fn ci_via_marker_header() {
    let h = with(&[("x-ci-build-id", "build-42"), ("user-agent", "curl/8.1")]);
    let r = infer_workload_class(&h, "curl/8.1");
    assert_eq!(r, WorkloadClass::Ci);
}

#[test]
fn ci_marker_header_beats_browser_user_agent() {
    // A headless Chrome instance run as part of a CI pipeline still
    // classifies as `ci` — the marker header is the authoritative
    // signal, the UA is decorative.
    let h = with(&[("github-actions-job", "build")]);
    let r = infer_workload_class(
        &h,
        "Mozilla/5.0 (X11; Linux x86_64) AppleWebKit/537.36 Chrome/120.0",
    );
    assert_eq!(r, WorkloadClass::Ci);
}

#[test]
fn agent_via_user_agent_cursor_case_insensitive() {
    let r = infer_workload_class(&empty(), "Cursor/0.42 (macOS)");
    assert_eq!(r, WorkloadClass::Agent);
}

#[test]
fn agent_via_user_agent_anthropic_sdk() {
    let r = infer_workload_class(&empty(), "anthropic-ai/sdk 0.30.0");
    assert_eq!(r, WorkloadClass::Agent);
}

#[test]
fn agent_via_explicit_override_header() {
    let h = with(&[
        ("user-agent", "curl/8.1"),
        ("x-gostly-workload-class", "agent"),
    ]);
    let r = infer_workload_class(&h, "curl/8.1");
    assert_eq!(r, WorkloadClass::Agent);
}

#[test]
fn agent_via_headless_runtime_with_empty_user_agent() {
    let h = with(&[("x-runtime", "nodejs")]);
    let r = infer_workload_class(&h, "");
    assert_eq!(r, WorkloadClass::Agent);
}

#[test]
fn human_via_chrome_signature() {
    let r = infer_workload_class(
        &empty(),
        "Mozilla/5.0 (Macintosh; Intel Mac OS X 14_0) AppleWebKit/537.36 \
         (KHTML, like Gecko) Chrome/120.0.0.0 Safari/537.36",
    );
    assert_eq!(r, WorkloadClass::Human);
}

#[test]
fn human_via_firefox_signature() {
    let r = infer_workload_class(
        &empty(),
        "Mozilla/5.0 (X11; Linux x86_64) Gecko/20100101 Firefox/121.0",
    );
    assert_eq!(r, WorkloadClass::Human);
}

#[test]
fn unknown_for_curl() {
    let r = infer_workload_class(&empty(), "curl/8.1.2");
    assert_eq!(r, WorkloadClass::Unknown);
}

#[test]
fn unknown_for_python_requests() {
    let r = infer_workload_class(&empty(), "python-requests/2.31.0");
    assert_eq!(r, WorkloadClass::Unknown);
}

#[test]
fn unknown_for_no_user_agent_and_no_markers() {
    let r = infer_workload_class(&empty(), "");
    assert_eq!(r, WorkloadClass::Unknown);
}

#[test]
fn unknown_for_wget() {
    let r = infer_workload_class(&empty(), "Wget/1.21");
    assert_eq!(r, WorkloadClass::Unknown);
}

#[test]
fn explicit_override_beats_curl_user_agent() {
    // A customer wraps their AI tool with curl and explicitly tags it.
    // The override must win — it's the contract we promise.
    let h = with(&[
        ("user-agent", "curl/8.1"),
        ("x-gostly-workload-class", "agent"),
    ]);
    let r = infer_workload_class(&h, "curl/8.1");
    assert_eq!(r, WorkloadClass::Agent);
}

#[test]
fn empty_ua_without_runtime_header_is_unknown_not_agent() {
    // The headless-agent heuristic only fires when *both* the UA is
    // empty and the runtime marker is present. Either alone is not
    // enough.
    let h = with(&[("content-type", "application/json")]);
    let r = infer_workload_class(&h, "");
    assert_eq!(r, WorkloadClass::Unknown);
}

#[test]
fn runtime_header_with_browser_ua_is_human_not_agent() {
    // A real browser running through a Node.js gateway shouldn't get
    // re-tagged as agent — the headless heuristic only fires when the
    // UA is *empty*. A populated browser UA still wins as human.
    let h = with(&[("x-runtime", "nodejs")]);
    let r = infer_workload_class(
        &h,
        "Mozilla/5.0 (Macintosh) AppleWebKit/537.36 Chrome/120.0",
    );
    assert_eq!(r, WorkloadClass::Human);
}

#[test]
fn explicit_override_with_unknown_value_does_not_misclassify() {
    // `x-gostly-workload-class: human` is NOT a supported override —
    // the classifier ignores anything except the literal `agent`
    // value. A curl UA with a bogus override stays `unknown`.
    let h = with(&[
        ("user-agent", "curl/8.1"),
        ("x-gostly-workload-class", "human"),
    ]);
    let r = infer_workload_class(&h, "curl/8.1");
    assert_eq!(r, WorkloadClass::Unknown);
}

#[test]
fn ci_marker_beats_agent_user_agent() {
    // A coding agent run from inside a CI pipeline: the first match wins.
    let h = with(&[("x-ci-build-id", "ci-99")]);
    let r = infer_workload_class(&h, "aider/0.50.1");
    assert_eq!(r, WorkloadClass::Ci);
}

#[test]
fn jenkins_user_agent_classifies_as_ci_even_with_browser_substring() {
    // Some Jenkins User-Agents include a browser fragment (e.g.
    // a plugin that proxies through a headless Chromium). CI must
    // still win because the runner pattern is checked first.
    let r = infer_workload_class(
        &empty(),
        "Jenkins/2.426 Mozilla/5.0 Chrome/120.0",
    );
    assert_eq!(r, WorkloadClass::Ci);
}

#[test]
fn property_no_headers_no_ua_is_always_unknown() {
    for _ in 0..16 {
        assert_eq!(
            infer_workload_class(&empty(), ""),
            WorkloadClass::Unknown,
        );
    }
}

#[test]
fn override_value_is_matched_in_either_case() {
    let h = with(&[("x-gostly-workload-class", "AGENT")]);
    assert_eq!(infer_workload_class(&h, "curl/8.1"), WorkloadClass::Agent);
}

#[test]
fn marker_header_without_text_counts() {
    let mut h = RequestHeaders::new();
    h.push("x-ci", None);
    assert_eq!(infer_workload_class(&h, "curl/8.1"), WorkloadClass::Ci);
}

#[test]
fn classification_goes_by_the_lower_case_form() {
    assert_eq!(classify(&empty(), "x", "jenkins/2"), WorkloadClass::Ci);
    assert_eq!(classify(&empty(), "x", "JENKINS/2"), WorkloadClass::Unknown);
    assert_eq!(classify(&with(&[("x-runtime", "nodejs")]), "", ""), WorkloadClass::Agent);
}

#[test]
fn needles_are_folded() {
    assert!(matches_any_substring("a chrome/1 b", &vec!["Chrome/"]));
    assert!(!matches_any_substring("a Chrome/1 b", &vec!["Chrome/"]));
    assert!(!matches_any_substring("anything", &vec![]));
}
