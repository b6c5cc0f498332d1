//! Counters and observations behind the local metrics.
use crate::dup::Dup;
use crate::ordmap::OrdMap;
use crate::text::same_text;
use crate::types::GLOBAL_TENANT;
use vstd::prelude::*;

pub mod counter_names;
pub mod observation_names;

verus! {

/// The number of observations that are kept under a name until they are drained.
pub const OBSERVATION_CAP: usize = 1024;

/// Counters since the start of the process, and observations since the last drain.
/// An observation is a double, kept as its bits.
pub struct TelemetryCollector {
    counters: OrdMap<String, u64>,
    observations: OrdMap<String, Vec<u64>>,
}

#[verifier::ext_equal]
pub struct TelemetryView {
    pub counters: Map<Seq<char>, u64>,
    pub observations: Map<Seq<char>, Seq<u64>>,
}

impl DeepView for TelemetryCollector {
    type V = TelemetryView;

    closed spec fn deep_view(&self) -> TelemetryView {
        TelemetryView {
            counters: self.counters.deep_view(),
            observations: self.observations.deep_view(),
        }
    }
}

/// The value of a counter, 0 if it was never moved.
pub open spec fn counter_value(t: TelemetryView, name: Seq<char>) -> u64 {
    if t.counters.contains_key(name) {
        t.counters[name]
    } else {
        0
    }
}

/// The observations under a name.
pub open spec fn observed(t: TelemetryView, name: Seq<char>) -> Seq<u64> {
    if t.observations.contains_key(name) {
        t.observations[name]
    } else {
        Seq::empty()
    }
}

/// A counter moved up by `n`; it stays at the greatest 64-bit integer once there.
pub open spec fn counted(t: TelemetryView, name: Seq<char>, n: u64) -> TelemetryView {
    let sum = counter_value(t, name) + n;
    TelemetryView {
        counters: t.counters.insert(
            name,
            if sum > u64::MAX {
                u64::MAX
            } else {
                sum as u64
            },
        ),
        ..t
    }
}

/// An observation taken up, unless as many as are kept are there already.
pub open spec fn with_observation(t: TelemetryView, name: Seq<char>, bits: u64) -> TelemetryView {
    let bucket = observed(t, name);
    TelemetryView {
        observations: t.observations.insert(
            name,
            if bucket.len() < OBSERVATION_CAP {
                bucket.push(bits)
            } else {
                bucket
            },
        ),
        ..t
    }
}

impl TelemetryCollector {
    /// A collector that has counted and observed nothing.
    pub fn new() -> (r: Self)
        ensures
            r.deep_view() == (TelemetryView {
                counters: Map::empty(),
                observations: Map::empty(),
            }),
    {
        let r = TelemetryCollector { counters: OrdMap::new(), observations: OrdMap::new() };
        assert(r.counters.deep_view() =~= Map::empty());
        assert(r.observations.deep_view() =~= Map::empty());
        r
    }

    /// Moves a counter up by `n`.
    pub fn inc_counter(&mut self, name: &str, n: u64)
        ensures
            final(self).deep_view() == counted(old(self).deep_view(), name@, n),
    {
        let ghost before = self.deep_view();
        let key = name.to_owned();
        let value: u64 = match self.counters.get(&key) {
            Some(v) => *v,
            None => 0,
        };
        let next: u64 = if n > u64::MAX - value {
            u64::MAX
        } else {
            value + n
        };
        self.counters.insert(key, next);
        assert(self.counters.deep_view() =~= counted(before, name@, n).counters);
    }

    /// Sets a counter to `value`.
    pub fn set_counter(&mut self, name: &str, value: u64)
        ensures
            final(self).deep_view() == with_counter(old(self).deep_view(), name@, value),
    {
        let ghost before = self.deep_view();
        self.counters.insert(name.to_owned(), value);
        assert(self.counters.deep_view() =~= before.counters.insert(name@, value));
    }

    /// Takes up an observation. No more than 1024 are kept under a name between two
    /// drains.
    pub fn record_observation(&mut self, name: &str, bits: u64)
        ensures
            final(self).deep_view() == with_observation(old(self).deep_view(), name@, bits),
    {
        let ghost before = self.deep_view();
        let key = name.to_owned();
        let mut bucket: Vec<u64> = match self.observations.remove(&key) {
            Some(b) => b,
            None => Vec::new(),
        };
        let ghost bv = bucket.deep_view();
        assert(bv =~= observed(before, name@));
        if bucket.len() < OBSERVATION_CAP {
            bucket.push(bits);
            assert(bucket.deep_view() =~= bv.push(bits));
        }
        self.observations.insert(key, bucket);
        assert(self.observations.deep_view() =~= with_observation(
            before,
            name@,
            bits,
        ).observations);
    }

    /// The counters as they stand.
    pub fn counters(&self) -> (r: OrdMap<String, u64>)
        ensures
            r.deep_view() == self.deep_view().counters,
    {
        self.counters.dup()
    }

    /// Hands the observations out and keeps none.
    pub fn drain_observations(&mut self) -> (r: OrdMap<String, Vec<u64>>)
        ensures
            r.deep_view() == old(self).deep_view().observations,
            final(self).deep_view() == drained(old(self).deep_view()),
    {
        let mut out: OrdMap<String, Vec<u64>> = OrdMap::new();
        std::mem::swap(&mut out, &mut self.observations);
        assert(self.observations.deep_view() =~= Map::empty());
        out
    }
}

/// No more than 1024 observations are kept under a name.
pub open spec fn observations_bounded(t: TelemetryView) -> bool {
    forall|name: Seq<char>| #[trigger]
        t.observations.contains_key(name) ==> t.observations[name].len() <= OBSERVATION_CAP
}

/// However many observations are taken up, no more than 1024 are kept under a name.
pub proof fn law_observations_stay_bounded(t: TelemetryView, name: Seq<char>, bits: u64)
    requires
        observations_bounded(t),
    ensures
        observations_bounded(with_observation(t, name, bits)),
{
}

/// A counter never moves down when it is counted up, and no other counter moves.
pub proof fn law_counters_are_monotonic(
    t: TelemetryView,
    name: Seq<char>,
    n: u64,
    other: Seq<char>,
)
    ensures
        counter_value(counted(t, name, n), other) >= counter_value(t, other),
        other != name ==> counter_value(counted(t, name, n), other) == counter_value(t, other),
{
}

// ─── Onboarding milestones ───────────────────────────────────────────────────

/// The counter of a milestone, if there is one of this name.
pub open spec fn milestone_counter(event_type: Seq<char>) -> Option<Seq<char>> {
    if event_type == "first_request_proxied"@ {
        Some(counter_names::FIRST_REQUEST_PROXIED_TOTAL@)
    } else if event_type == "first_mock_recorded"@ {
        Some(counter_names::FIRST_MOCK_RECORDED_TOTAL@)
    } else if event_type == "first_mock_served"@ {
        Some(counter_names::FIRST_MOCK_SERVED_TOTAL@)
    } else {
        None
    }
}

/// The service that a milestone is counted for.
pub open spec fn milestone_service(service_id: Option<Seq<char>>) -> Seq<char> {
    match service_id {
        Some(s) => s,
        None => GLOBAL_TENANT@,
    }
}

/// The telemetry after a milestone of a service: counted the first time only.
pub open spec fn after_milestone(
    t: TelemetryView,
    event_type: Seq<char>,
    service_id: Option<Seq<char>>,
    seen: Set<Seq<char>>,
) -> TelemetryView {
    if seen.contains(milestone_service(service_id)) {
        t
    } else {
        match milestone_counter(event_type) {
            Some(name) => counted(t, name, 1),
            None => t,
        }
    }
}

/// Counts a milestone of a service unless the service is among those seen, and adds
/// it to them.
pub fn fire_onboarding_event(
    telemetry: &mut TelemetryCollector,
    event_type: &str,
    service_id: Option<&str>,
    seen: &mut OrdMap<String, u64>,
)
    ensures
        final(telemetry).deep_view() == after_milestone(
            old(telemetry).deep_view(),
            event_type@,
            service_id.deep_view(),
            old(seen)@.dom(),
        ),
        final(seen)@.dom() == old(seen)@.dom().insert(milestone_service(service_id.deep_view())),
{
    let svc = match service_id {
        Some(s) => s.to_owned(),
        None => GLOBAL_TENANT.to_owned(),
    };
    if seen.contains_key(&svc) {
        assert(seen@.dom() =~= seen@.dom().insert(svc@));
        return;
    }
    seen.insert(svc, 1);
    if same_text(event_type, "first_request_proxied") {
        telemetry.inc_counter(counter_names::FIRST_REQUEST_PROXIED_TOTAL, 1);
    } else if same_text(event_type, "first_mock_recorded") {
        telemetry.inc_counter(counter_names::FIRST_MOCK_RECORDED_TOTAL, 1);
    } else if same_text(event_type, "first_mock_served") {
        telemetry.inc_counter(counter_names::FIRST_MOCK_SERVED_TOTAL, 1);
    }
}

/// A milestone of a service is counted once: the second time nothing changes.
pub proof fn law_milestone_counts_once(
    t: TelemetryView,
    event_type: Seq<char>,
    service_id: Option<Seq<char>>,
    seen: Set<Seq<char>>,
)
    ensures
        ({
            let first = after_milestone(t, event_type, service_id, seen);
            let seen2 = seen.insert(milestone_service(service_id));
            after_milestone(first, event_type, service_id, seen2) == first
        }),
{
}

/// Counting adds: the counter goes up by `n` and stays at the greatest 64-bit integer, and
/// no observation is touched.
pub proof fn law_counting_adds(t: TelemetryView, name: Seq<char>, n: u64)
    ensures
        t.counters.contains_key(name) && t.counters[name] + n <= u64::MAX ==> counted(
            t,
            name,
            n,
        ).counters[name] == t.counters[name] + n,
        t.counters.contains_key(name) && t.counters[name] + n > u64::MAX ==> counted(
            t,
            name,
            n,
        ).counters[name] == u64::MAX,
        !t.counters.contains_key(name) ==> counted(t, name, n).counters[name] == n,
        counted(t, name, n).counters.contains_key(name),
        counted(t, name, n).observations == t.observations,
{
}

/// An observation is kept after those before it, up to 1024 of a name; no counter and no
/// other name is touched.
pub proof fn law_observation_is_kept(t: TelemetryView, name: Seq<char>, bits: u64, other: Seq<char>)
    ensures
        observed(t, name).len() < 1024 ==> observed(with_observation(t, name, bits), name)
            == observed(t, name).push(bits),
        observed(t, name).len() >= 1024 ==> observed(with_observation(t, name, bits), name)
            == observed(t, name),
        other != name ==> observed(with_observation(t, name, bits), other) == observed(t, other),
        with_observation(t, name, bits).counters == t.counters,
{
}

/// The first milestone of a kind of a service moves the counter of that kind up by one,
/// and no other counter.
pub proof fn law_first_milestone_counts(
    t: TelemetryView,
    service_id: Option<Seq<char>>,
    seen: Set<Seq<char>>,
)
    requires
        service_id is Some ==> !seen.contains(service_id->0),
        service_id is None ==> !seen.contains("_global"@),
    ensures
        after_milestone(t, "first_request_proxied"@, service_id, seen) == counted(
            t,
            "gostly_first_request_proxied_total"@,
            1,
        ),
        after_milestone(t, "first_mock_recorded"@, service_id, seen) == counted(
            t,
            "gostly_first_mock_recorded_total"@,
            1,
        ),
        after_milestone(t, "first_mock_served"@, service_id, seen) == counted(
            t,
            "gostly_first_mock_served_total"@,
            1,
        ),
{
    reveal_strlit("first_request_proxied");
    reveal_strlit("first_mock_recorded");
    reveal_strlit("first_mock_served");
    assert("first_request_proxied"@.len() == 21);
    assert("first_mock_recorded"@.len() == 19);
    assert("first_mock_served"@.len() == 17);
}

/// The telemetry with a counter set to a value.
pub open spec fn with_counter(t: TelemetryView, name: Seq<char>, value: u64) -> TelemetryView {
    TelemetryView { counters: t.counters.insert(name, value), ..t }
}

/// The telemetry without observations.
pub open spec fn drained(t: TelemetryView) -> TelemetryView {
    TelemetryView { observations: Map::empty(), ..t }
}

/// A counter that is set has its value, and nothing else changes. A drain leaves no
/// observation and every counter.
pub proof fn law_set_and_drain(t: TelemetryView, name: Seq<char>, value: u64, other: Seq<char>)
    ensures
        counter_value(with_counter(t, name, value), name) == value,
        other != name ==> counter_value(with_counter(t, name, value), other) == counter_value(
            t,
            other,
        ),
        with_counter(t, name, value).observations == t.observations,
        observed(drained(t), name).len() == 0,
        counter_value(drained(t), name) == counter_value(t, name),
{
}

} // verus!
