//! State machines of resources.
use gostly::dup::Dup;
use gostly::ordmap::OrdMap;
use gostly::statechart::default_status_field;
use gostly::statechart::State;
use gostly::statechart::StateMachine;
use gostly::statechart::StatechartRegistry;

#[test]
fn bundled_fixtures_load_all_five() {
    let reg = StatechartRegistry::with_bundled_fixtures();
    assert_eq!(reg.len(), 5, "expected the five bundled fixtures to load");
    for id in &["charge", "subscription", "order", "customer", "invoice"] {
        assert!(reg.get(id).is_some(), "missing bundled fixture: {id}");
    }
}

#[test]
fn charge_initial_state_is_created() {
    let reg = StatechartRegistry::with_bundled_fixtures();
    let charge = reg.get("charge").unwrap();
    assert_eq!(charge.initial, "created");
}

#[test]
fn charge_capture_transitions_created_to_captured() {
    let reg = StatechartRegistry::with_bundled_fixtures();
    let next = reg.apply("charge", "created", "capture");
    assert_eq!(next.as_deref(), Some("captured"));
}

#[test]
fn charge_refund_after_capture_transitions_to_refunded() {
    let reg = StatechartRegistry::with_bundled_fixtures();
    let after_capture = reg
        .apply("charge", "created", "capture")
        .unwrap();
    let next = reg.apply("charge", &after_capture, "refund");
    assert_eq!(next.as_deref(), Some("refunded"));
}

#[test]
fn invalid_transition_returns_none() {
    let reg = StatechartRegistry::with_bundled_fixtures();
    // refund is only valid from captured, not from created.
    assert!(reg.apply("charge", "created", "refund").is_none());
}

#[test]
fn unknown_state_returns_none() {
    let reg = StatechartRegistry::with_bundled_fixtures();
    assert!(reg.apply("charge", "imaginary_state", "capture").is_none());
}

#[test]
fn unknown_machine_returns_none() {
    let reg = StatechartRegistry::with_bundled_fixtures();
    assert!(reg.apply("nope", "created", "capture").is_none());
}

#[test]
fn subscription_pause_resume_loop() {
    let reg = StatechartRegistry::with_bundled_fixtures();
    let s1 = reg.apply("subscription", "trialing", "activate").unwrap();
    assert_eq!(s1, "active");
    let s2 = reg.apply("subscription", &s1, "pause").unwrap();
    assert_eq!(s2, "paused");
    let s3 = reg.apply("subscription", &s2, "resume").unwrap();
    assert_eq!(s3, "active");
}

#[test]
fn subscription_terminal_states_have_no_transitions() {
    let reg = StatechartRegistry::with_bundled_fixtures();
    assert!(reg.apply("subscription", "cancelled", "activate").is_none());
    assert!(reg.apply("subscription", "cancelled", "pause").is_none());
}

#[test]
fn order_full_lifecycle() {
    let reg = StatechartRegistry::with_bundled_fixtures();
    let s = "pending";
    let s = reg.apply("order", s, "pay").unwrap();
    assert_eq!(s, "paid");
    let s = reg.apply("order", &s, "ship").unwrap();
    assert_eq!(s, "shipped");
    let s = reg.apply("order", &s, "deliver").unwrap();
    assert_eq!(s, "delivered");
}

#[test]
fn invoice_initial_is_draft() {
    let reg = StatechartRegistry::with_bundled_fixtures();
    assert_eq!(reg.get("invoice").unwrap().initial, "draft");
}

#[test]
fn invoice_finalize_then_pay_lands_on_paid() {
    let reg = StatechartRegistry::with_bundled_fixtures();
    let s = reg.apply("invoice", "draft", "finalize").unwrap();
    assert_eq!(s, "open");
    let s = reg.apply("invoice", &s, "pay").unwrap();
    assert_eq!(s, "paid");
}

#[test]
fn customer_suspend_reactivate_loop() {
    let reg = StatechartRegistry::with_bundled_fixtures();
    let s = reg.apply("customer", "active", "suspend").unwrap();
    assert_eq!(s, "suspended");
    let s = reg.apply("customer", &s, "reactivate").unwrap();
    assert_eq!(s, "active");
}

#[test]
fn property_walk_never_lands_in_unknown_state() {
    let reg = StatechartRegistry::with_bundled_fixtures();
    for id in &["charge", "subscription", "order", "customer", "invoice"] {
        let m = reg.get(id).unwrap();
        // Walk by always picking the first transition out of the current
        // state until we hit a terminal (no outgoing edges). The walk
        // length is bounded by `states.len()` for a deterministic
        // first-edge-only walk, which is plenty for this property.
        let mut current = m.initial.clone();
        for _ in 0..m.states.len() {
            let st = m.states.get(&current).unwrap();
            if st.transitions.is_empty() {
                break;
            }
            let evt = st.transitions.key_at(0);
            let next = m.apply(&current, evt).unwrap();
            assert!(m.has_state(&next), "{id}: walked into unknown state {next}");
            current = next;
        }
    }
}

#[test]
fn malformed_fixture_skipped_gracefully() {
    // Confirm the helper handles unknown ids without panicking.
    let reg = StatechartRegistry::default();
    assert!(reg.is_empty());
    assert!(reg.apply("anything", "state", "evt").is_none());
}

#[test]
fn state_transitions_are_immutable_through_apply() {
    // Calling apply must not mutate the machine.
    let reg = StatechartRegistry::with_bundled_fixtures();
    let charge_before = reg.get("charge").unwrap().dup();
    let _ = reg.apply("charge", "created", "capture");
    let charge_after = reg.get("charge").unwrap();
    assert_eq!(
        charge_before.states.len(),
        charge_after.states.len(),
        "apply must not mutate the registry",
    );
}

#[test]
fn registry_get_returns_same_machine_each_call() {
    let reg = StatechartRegistry::with_bundled_fixtures();
    let a = reg.get("charge").unwrap().id.clone();
    let b = reg.get("charge").unwrap().id.clone();
    assert_eq!(a, b);
}

fn lamp(initial: &str) -> StateMachine {
    let mut on = State { transitions: OrdMap::new() };
    on.transitions.insert("switch".to_string(), "off".to_string());
    let mut states = OrdMap::new();
    states.insert("on".to_string(), on);
    states.insert("off".to_string(), State { transitions: OrdMap::new() });
    StateMachine {
        id: "anything".to_string(),
        initial: initial.to_string(),
        states,
        status_field: default_status_field(),
    }
}

#[test]
fn registered_machine_takes_the_name_it_is_registered_under() {
    let mut reg = StatechartRegistry::default();
    reg.register("lamp", Some(lamp("on")));
    assert_eq!(reg.get("lamp").unwrap().id, "lamp");
    assert_eq!(reg.get("lamp").unwrap().status_field, "status");
    assert_eq!(reg.apply("lamp", "on", "switch").as_deref(), Some("off"));
    assert!(reg.apply("lamp", "off", "switch").is_none());
}

#[test]
fn machine_without_its_initial_state_is_left_out() {
    let mut reg = StatechartRegistry::default();
    reg.register("lamp", Some(lamp("broken")));
    reg.register("radio", None);
    assert!(reg.is_empty());
    assert_eq!(reg.len(), 0);
}
