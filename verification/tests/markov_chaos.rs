//! Healthy and degraded spells.
use gostly::chaos::MarkovConfig;
use gostly::markov_chaos::rates_in;
use gostly::markov_chaos::MarkovState;
use gostly::markov_chaos::StateKind;
use rand::rngs::StdRng;
use rand::Rng;
use rand::SeedableRng;

const MS: i128 = 1_000_000;

fn cfg() -> MarkovConfig {
    MarkovConfig {
        mean_dwell_healthy_ms: 100,
        mean_dwell_degraded_ms: 50,
        degraded_error_rate: 0.6f64.to_bits(),
        degraded_latency_mult: 5.0f64.to_bits(),
    }
}

fn draw(mean_ms: u64, rng: &mut StdRng) -> i64 {
    let u: f64 = rng.gen();
    (-(mean_ms as f64) * (1.0 - u).max(1e-9).ln()) as i64
}

fn step(st: &mut MarkovState, cfg: &MarkovConfig, now: i128, rng: &mut StdRng) -> (StateKind, bool) {
    let dwell: i64 = if st.expired(now) { draw(st.next_mean_ms(cfg), rng) } else { 0 };
    st.step(now, dwell)
}

#[test]
fn starts_healthy() {
    let st = MarkovState::new();
    assert_eq!(st.kind, StateKind::Healthy);
    assert_eq!(MarkovState::default().current_kind(), StateKind::Healthy);
    // The first spell is over at once, on a clock that has passed 2020.
    assert!(st.dwell_until > 1_577_836_800_000 * MS);
    assert!(st.expired(MarkovState::new().dwell_until));
}

#[test]
fn seeded_determinism() {
    let mut a = MarkovState::new_at(0);
    let mut b = MarkovState::new_at(0);
    let mut r1 = StdRng::seed_from_u64(42);
    let mut r2 = StdRng::seed_from_u64(42);
    let cfg = cfg();
    let mut seq_a = Vec::with_capacity(50);
    let mut seq_b = Vec::with_capacity(50);
    for i in 0..50 {
        let now: i128 = i * MS;
        let (ka, _) = step(&mut a, &cfg, now, &mut r1);
        let (kb, _) = step(&mut b, &cfg, now, &mut r2);
        seq_a.push(ka);
        seq_b.push(kb);
    }
    assert_eq!(seq_a, seq_b, "seeded RNG must produce identical state sequences");
}

#[test]
fn ratio_matches_expected_band() {
    let cfg_real = MarkovConfig {
        mean_dwell_healthy_ms: 30_000,
        mean_dwell_degraded_ms: 5_000,
        degraded_error_rate: 0.6f64.to_bits(),
        degraded_latency_mult: 5.0f64.to_bits(),
    };
    let mut rng = StdRng::seed_from_u64(7);
    let mut total_healthy_ms: i128 = 0;
    let mut total_degraded_ms: i128 = 0;
    // The first step starts a healthy spell.
    let mut st = MarkovState { kind: StateKind::Degraded, dwell_until: 0 };
    for _ in 0..10_000 {
        let now = st.dwell_until;
        let (kind, changed) = step(&mut st, &cfg_real, now, &mut rng);
        assert!(changed);
        let dwell = (st.dwell_until - now) / MS;
        match kind {
            StateKind::Healthy => total_healthy_ms += dwell,
            StateKind::Degraded => total_degraded_ms += dwell,
        }
    }
    let total = total_healthy_ms + total_degraded_ms;
    let degraded_frac = total_degraded_ms as f64 / total as f64;
    assert!(
        (0.1229..=0.1629).contains(&degraded_frac),
        "degraded fraction {degraded_frac} outside 14.3% ± 2pp band"
    );
}

#[test]
fn step_eventually_transitions() {
    let mut st = MarkovState::new_at(0);
    let mut rng = StdRng::seed_from_u64(1);
    let tiny = MarkovConfig {
        mean_dwell_healthy_ms: 1,
        mean_dwell_degraded_ms: 1,
        degraded_error_rate: 0.6f64.to_bits(),
        degraded_latency_mult: 5.0f64.to_bits(),
    };
    let mut transitions = 0;
    for i in 0..200 {
        let (_, t) = step(&mut st, &tiny, i * 2 * MS, &mut rng);
        if t {
            transitions += 1;
        }
    }
    assert!(transitions > 0, "state machine never transitioned");
}

#[test]
fn spell_lasts_for_its_length() {
    let mut st = MarkovState::new_at(0);
    assert_eq!(st.step(0, 20), (StateKind::Degraded, true));
    assert_eq!(st.step(20 * MS - 1, 20), (StateKind::Degraded, false));
    assert_eq!(st.step(20 * MS, 7), (StateKind::Healthy, true));
    assert_eq!(st.dwell_until, 27 * MS);
}

#[test]
fn spell_is_at_least_a_millisecond() {
    let mut st = MarkovState::new_at(0);
    let _ = st.step(0, 0);
    assert_eq!(st.dwell_until, MS);
    let _ = st.step(MS, -5);
    assert_eq!(st.dwell_until, 2 * MS);
}

#[test]
fn mean_of_the_next_spell() {
    let st = MarkovState::new_at(0);
    assert_eq!(st.next_mean_ms(&cfg()), 50);
    let zero = MarkovConfig { mean_dwell_degraded_ms: 0, ..cfg() };
    assert_eq!(st.next_mean_ms(&zero), 1);
}

#[test]
fn rates_of_each_state() {
    assert_eq!(rates_in(StateKind::Healthy, &cfg()), (0.0f64.to_bits(), 1.0f64.to_bits()));
    assert_eq!(rates_in(StateKind::Degraded, &cfg()), (0.6f64.to_bits(), 5.0f64.to_bits()));
}
