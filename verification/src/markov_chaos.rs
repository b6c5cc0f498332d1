//! Two-state Markov chaos: healthy and degraded spells in turn.
use crate::chaos::MarkovConfig;
use crate::chaos::ONE_BITS;
use crate::timestamps;
use crate::timestamps::Timestamp;
use vstd::prelude::*;

verus! {

/// The state of a service.
#[derive(Clone, Copy, Debug, PartialEq, Eq, Structural)]
pub enum StateKind {
    Healthy,
    Degraded,
}

/// The state of a service and when its spell ends, in nanoseconds since the epoch.
#[derive(Clone, Copy, Debug, PartialEq, Eq, Structural)]
pub struct MarkovState {
    pub kind: StateKind,
    pub dwell_until: i128,
}

/// The other state.
pub open spec fn other_kind(kind: StateKind) -> StateKind {
    match kind {
        StateKind::Healthy => StateKind::Degraded,
        StateKind::Degraded => StateKind::Healthy,
    }
}

/// The mean length of a spell in milliseconds, at least 1.
pub open spec fn mean_dwell_ms(kind: StateKind, cfg: MarkovConfig) -> u64 {
    let mean = match kind {
        StateKind::Healthy => cfg.mean_dwell_healthy_ms,
        StateKind::Degraded => cfg.mean_dwell_degraded_ms,
    };
    if mean == 0 {
        1
    } else {
        mean
    }
}

/// When a spell ends that starts at `now` and lasts `dwell_ms`, at least a
/// millisecond. Times end at the greatest 128-bit integer.
pub open spec fn dwell_end(now: i128, dwell_ms: i64) -> i128 {
    let ms: int = if dwell_ms < 1 {
        1
    } else {
        dwell_ms as int
    };
    if now + ms * 1_000_000 > i128::MAX {
        i128::MAX
    } else {
        (now + ms * 1_000_000) as i128
    }
}

/// The state after a step at `now`: as it is during a spell, the other one when the
/// spell is over.
pub open spec fn stepped(state: MarkovState, now: i128, dwell_ms: i64) -> MarkovState {
    if now < state.dwell_until {
        state
    } else {
        MarkovState { kind: other_kind(state.kind), dwell_until: dwell_end(now, dwell_ms) }
    }
}

impl MarkovState {
    /// Healthy, with a spell that ends at `now`, so that the first step starts a new
    /// one.
    pub fn new_at(now: i128) -> (r: Self)
        ensures
            r == (MarkovState { kind: StateKind::Healthy, dwell_until: now }),
    {
        MarkovState { kind: StateKind::Healthy, dwell_until: now }
    }

    /// Healthy, with a spell that ends at the time on the system clock.
    pub fn new() -> (r: Self)
        ensures
            r.kind == StateKind::Healthy,
            exists|now: Timestamp|
                timestamps::in_calendar(now) && r.dwell_until == #[trigger] timestamps::nanos_of(
                    now,
                ),
    {
        let now = Timestamp::now();
        MarkovState::new_at(now.to_nanos())
    }

    /// The state.
    pub fn current_kind(&self) -> (r: StateKind)
        ensures
            r == self.kind,
    {
        self.kind
    }

    /// Whether the next step at `now` ends the spell.
    pub fn expired(&self, now: i128) -> (r: bool)
        ensures
            r == (self.dwell_until <= now),
    {
        self.dwell_until <= now
    }

    /// The mean length in milliseconds of the spell that follows this one.
    pub fn next_mean_ms(&self, cfg: &MarkovConfig) -> (r: u64)
        ensures
            r == mean_dwell_ms(other_kind(self.kind), *cfg),
            r >= 1,
    {
        let mean = match self.kind {
            StateKind::Degraded => cfg.mean_dwell_healthy_ms,
            StateKind::Healthy => cfg.mean_dwell_degraded_ms,
        };
        if mean == 0 {
            1
        } else {
            mean
        }
    }

    /// A step at `now`. When the spell is over, the state changes and the new spell
    /// lasts `dwell_ms`. Returns the state and whether it changed.
    pub fn step(&mut self, now: i128, dwell_ms: i64) -> (r: (StateKind, bool))
        ensures
            *final(self) == stepped(*old(self), now, dwell_ms),
            r.0 == final(self).kind,
            r.1 == (old(self).dwell_until <= now),
    {
        if now < self.dwell_until {
            return (self.kind, false);
        }
        self.kind = match self.kind {
            StateKind::Healthy => StateKind::Degraded,
            StateKind::Degraded => StateKind::Healthy,
        };
        let ms: i64 = if dwell_ms < 1 {
            1
        } else {
            dwell_ms
        };
        let span: i128 = (ms as i128) * 1_000_000;
        self.dwell_until = if now > i128::MAX - span {
            i128::MAX
        } else {
            now + span
        };
        (self.kind, true)
    }
}

impl Default for MarkovState {
    fn default() -> (r: Self)
        ensures
            r.kind == StateKind::Healthy,
            exists|now: Timestamp|
                timestamps::in_calendar(now) && r.dwell_until == #[trigger] timestamps::nanos_of(
                    now,
                ),
    {
        MarkovState::new()
    }
}

/// Within a spell the state stays, whatever is drawn.
pub proof fn law_spell_lasts(state: MarkovState, now: i128, dwell_ms: i64)
    requires
        now < state.dwell_until,
    ensures
        stepped(state, now, dwell_ms) == state,
{
}

/// A new spell lasts beyond the step that starts it, and so the state never changes
/// twice at one time.
pub proof fn law_spell_has_length(state: MarkovState, now: i128, dwell_ms: i64)
    requires
        now < i128::MAX,
    ensures
        now < stepped(state, now, dwell_ms).dwell_until,
{
}

/// The bits of the error rate and of the latency multiplier in a state: a healthy
/// service has no errors and its own latency.
pub open spec fn effective_rates(kind: StateKind, cfg: MarkovConfig) -> (u64, u64) {
    match kind {
        StateKind::Healthy => (0, ONE_BITS),
        StateKind::Degraded => (cfg.degraded_error_rate, cfg.degraded_latency_mult),
    }
}

/// The bits of the error rate and of the latency multiplier in a state.
pub fn rates_in(kind: StateKind, cfg: &MarkovConfig) -> (r: (u64, u64))
    ensures
        r == effective_rates(kind, *cfg),
{
    match kind {
        StateKind::Healthy => (0, ONE_BITS),
        StateKind::Degraded => (cfg.degraded_error_rate, cfg.degraded_latency_mult),
    }
}

/// A healthy service has no errors.
pub proof fn law_healthy_has_no_errors(cfg: MarkovConfig)
    ensures
        !crate::chaos::positive(effective_rates(StateKind::Healthy, cfg).0),
{
}

/// When its spell is over a healthy service becomes degraded and a degraded one healthy,
/// for the drawn number of milliseconds, and at least one.
pub proof fn law_spells_alternate(state: MarkovState, now: i128, dwell_ms: i64)
    requires
        state.dwell_until <= now,
        now + dwell_ms * 1_000_000 <= i128::MAX,
        now + 1_000_000 <= i128::MAX,
    ensures
        state.kind == StateKind::Healthy ==> stepped(state, now, dwell_ms).kind
            == StateKind::Degraded,
        state.kind == StateKind::Degraded ==> stepped(state, now, dwell_ms).kind
            == StateKind::Healthy,
        dwell_ms >= 1 ==> stepped(state, now, dwell_ms).dwell_until == now + dwell_ms * 1_000_000,
        dwell_ms < 1 ==> stepped(state, now, dwell_ms).dwell_until == now + 1_000_000,
{
}

/// A degraded service has the configured error rate and latency multiplier, a healthy one
/// no errors and the multiplier 1.
pub proof fn law_rates_are_as_configured(cfg: MarkovConfig)
    ensures
        effective_rates(StateKind::Degraded, cfg).0 == cfg.degraded_error_rate,
        effective_rates(StateKind::Degraded, cfg).1 == cfg.degraded_latency_mult,
        effective_rates(StateKind::Healthy, cfg).0 == 0,
        effective_rates(StateKind::Healthy, cfg).1 == 0x3ff0_0000_0000_0000,
{
}

/// The mean length of a spell is the configured one for its state, and at least a
/// millisecond.
pub proof fn law_mean_dwell_is_as_configured(cfg: MarkovConfig)
    ensures
        cfg.mean_dwell_healthy_ms > 0 ==> mean_dwell_ms(StateKind::Healthy, cfg)
            == cfg.mean_dwell_healthy_ms,
        cfg.mean_dwell_degraded_ms > 0 ==> mean_dwell_ms(StateKind::Degraded, cfg)
            == cfg.mean_dwell_degraded_ms,
        cfg.mean_dwell_healthy_ms == 0 ==> mean_dwell_ms(StateKind::Healthy, cfg) == 1,
        cfg.mean_dwell_degraded_ms == 0 ==> mean_dwell_ms(StateKind::Degraded, cfg) == 1,
{
}

} // verus!
