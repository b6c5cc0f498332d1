//! Whether a request is given an injected fault, and which.
use crate::chaos;
use crate::chaos::draw_error;
use crate::chaos::find_endpoint_rule;
use crate::chaos::is_positive;
use crate::chaos::scrub_path;
use crate::chaos::ChaosConfig;
use crate::chaos::ChaosConfigView;
use crate::chaos::ChaosModel;
use crate::chaos::MarkovConfig;
use crate::chaos::ONE_BITS;
use crate::markov_chaos;
use crate::markov_chaos::rates_in;
use crate::markov_chaos::MarkovState;
use crate::ordmap::OrdMap;
use crate::responses;
use crate::responses::chaos_response;
use crate::responses::ResponsePlan;
use crate::responses::ResponsePlanView;
use crate::routing::RoutedRequest;
use crate::text::same_text;
use crate::types;
use crate::types::Mode;
use crate::uri;
use vstd::prelude::*;

verus! {

// ─── Which configuration counts ──────────────────────────────────────────────

/// The configuration applies in this mode.
pub open spec fn applies_in(cc: ChaosConfigView, mode: Mode) -> bool {
    cc.modes.len() == 0 || cc.modes.contains(types::mode_label(mode))
}

/// The chaos configuration that counts for a request: in MOCK and PASSTHROUGH mode
/// that of the first endpoint rule for its URI, else that of its service, if chaos is
/// enabled for the service and the configuration applies in the mode.
pub open spec fn active_config(
    mode: Mode,
    config: Option<ChaosConfigView>,
    u: Seq<char>,
) -> Option<ChaosConfigView> {
    if mode != Mode::Mock && mode != Mode::Passthrough {
        None
    } else {
        match config {
            Some(cc) => {
                let active = match chaos::matching_rule(cc.endpoint_rules, u) {
                    Some(rule) => rule.config,
                    None => cc,
                };
                if cc.enabled && applies_in(active, mode) {
                    Some(active)
                } else {
                    None
                }
            },
            None => None,
        }
    }
}

fn applies(cc: &ChaosConfig, mode: &Mode) -> (r: bool)
    ensures
        r == applies_in(cc.deep_view(), *mode),
{
    if cc.modes.len() == 0 {
        return true;
    }
    let ghost all = cc.deep_view().modes;
    let label = mode.label();
    let mut i: usize = 0;
    while i < cc.modes.len()
        invariant
            i <= cc.modes@.len(),
            all == cc.deep_view().modes,
            all == cc.modes.deep_view(),
            label@ == types::mode_label(*mode),
            forall|j: int| 0 <= j < i ==> #[trigger] all[j] != label@,
        decreases cc.modes@.len() - i,
    {
        assert(all[i as int] == cc.modes@[i as int]@);
        if same_text(cc.modes[i].as_str(), label.as_str()) {
            return true;
        }
        i += 1;
    }
    false
}

/// The chaos configuration that counts for a request.
pub fn active_chaos<'a>(req: &'a RoutedRequest) -> (r: Option<&'a ChaosConfig>)
    ensures
        match r {
            Some(cc) => active_config(req.mode, req.deep_view().chaos, req.uri@) == Some(
                cc.deep_view(),
            ),
            None => active_config(req.mode, req.deep_view().chaos, req.uri@) is None,
        },
{
    if req.mode != Mode::Mock && req.mode != Mode::Passthrough {
        return None;
    }
    match &req.chaos {
        Some(svc) => {
            if !svc.enabled {
                return None;
            }
            let rules = svc.endpoint_rules.as_slice();
            assert(rules.deep_view() =~= svc.deep_view().endpoint_rules);
            let active = match find_endpoint_rule(rules, req.uri.as_str()) {
                Some(cc) => cc,
                None => svc,
            };
            if applies(active, &req.mode) {
                Some(active)
            } else {
                None
            }
        },
        None => None,
    }
}

/// Chaos is never injected while traffic is recorded or being processed.
pub proof fn law_recording_is_undisturbed(
    mode: Mode,
    config: Option<ChaosConfigView>,
    u: Seq<char>,
)
    requires
        mode == Mode::Learn || mode == Mode::Transitioning,
    ensures
        active_config(mode, config, u) is None,
{
}

/// Chaos is injected in the modes that the configuration lists, and in both if it lists
/// none: without an endpoint rule for the request an enabled configuration counts in
/// MOCK mode exactly if its modes are empty or hold `MOCK`, in PASSTHROUGH mode exactly
/// if they are empty or hold `PASSTHROUGH`, and it counts as it is.
pub proof fn law_chaos_is_limited_to_modes(cc: ChaosConfigView, u: Seq<char>)
    requires
        cc.enabled,
        chaos::matching_rule(cc.endpoint_rules, u) is None,
    ensures
        active_config(Mode::Mock, Some(cc), u) is Some <==> cc.modes.len() == 0 || exists|i: int|
            0 <= i < cc.modes.len() && #[trigger] cc.modes[i] == "MOCK"@,
        active_config(Mode::Passthrough, Some(cc), u) is Some <==> cc.modes.len() == 0
            || exists|i: int| 0 <= i < cc.modes.len() && #[trigger] cc.modes[i] == "PASSTHROUGH"@,
        active_config(Mode::Mock, Some(cc), u) is Some ==> active_config(Mode::Mock, Some(cc), u)
            == Some(cc),
        active_config(Mode::Passthrough, Some(cc), u) is Some ==> active_config(
            Mode::Passthrough,
            Some(cc),
            u,
        ) == Some(cc),
{
}

/// With an endpoint rule for the request the configuration of the rule counts in place of
/// that of the service, in the modes that the rule lists; the service still has to have
/// chaos enabled, the rule need not.
pub proof fn law_endpoint_rule_counts(
    cc: ChaosConfigView,
    u: Seq<char>,
    rule: ChaosConfigView,
)
    requires
        chaos::matching_rule(cc.endpoint_rules, u) is Some,
        chaos::matching_rule(cc.endpoint_rules, u)->0.config == rule,
    ensures
        active_config(Mode::Mock, Some(cc), u) == (if cc.enabled && (rule.modes.len() == 0
            || rule.modes.contains("MOCK"@)) {
            Some(rule)
        } else {
            None
        }),
        active_config(Mode::Passthrough, Some(cc), u) == (if cc.enabled && (rule.modes.len() == 0
            || rule.modes.contains("PASSTHROUGH"@)) {
            Some(rule)
        } else {
            None
        }),
{
}

/// Without a configuration, or with chaos disabled for the service, nothing is injected.
pub proof fn law_disabled_chaos_is_none(mode: Mode, config: Option<ChaosConfigView>, u: Seq<char>)
    requires
        config is None || !config->0.enabled,
    ensures
        active_config(mode, config, u) is None,
{
}

// ─── Rates ───────────────────────────────────────────────────────────────────

/// The parameters of the Markov model.
pub open spec fn markov_config(cc: ChaosConfigView) -> MarkovConfig {
    match cc.markov {
        Some(m) => m,
        None => chaos::default_markov(),
    }
}

/// The key of a service in the table of Markov states.
pub open spec fn state_key(service_id: Option<Seq<char>>) -> Seq<char> {
    match service_id {
        Some(svc) => svc,
        None => Seq::empty(),
    }
}

/// The state of a service; a new service starts at `now`.
pub open spec fn state_of(
    states: Map<Seq<char>, MarkovState>,
    service_id: Option<Seq<char>>,
    now: i128,
) -> MarkovState {
    let key = state_key(service_id);
    if states.contains_key(key) {
        states[key]
    } else {
        MarkovState { kind: markov_chaos::StateKind::Healthy, dwell_until: now }
    }
}

/// The table of Markov states after a request.
pub open spec fn states_after(
    cc: ChaosConfigView,
    states: Map<Seq<char>, MarkovState>,
    service_id: Option<Seq<char>>,
    now: i128,
    dwell_ms: i64,
) -> Map<Seq<char>, MarkovState> {
    match cc.chaos_model {
        ChaosModel::Uniform => states,
        ChaosModel::Markov => states.insert(
            state_key(service_id),
            markov_chaos::stepped(state_of(states, service_id, now), now, dwell_ms),
        ),
    }
}

/// The bits of the error rate and of the latency multiplier for a request.
pub open spec fn rates_for(
    cc: ChaosConfigView,
    states: Map<Seq<char>, MarkovState>,
    service_id: Option<Seq<char>>,
    now: i128,
    dwell_ms: i64,
) -> (u64, u64) {
    match cc.chaos_model {
        ChaosModel::Uniform => (cc.error_rate, ONE_BITS),
        ChaosModel::Markov => markov_chaos::effective_rates(
            states_after(cc, states, service_id, now, dwell_ms)[state_key(service_id)].kind,
            markov_config(cc),
        ),
    }
}

fn markov_of(cc: &ChaosConfig) -> (r: MarkovConfig)
    ensures
        r == markov_config(cc.deep_view()),
{
    match cc.markov {
        Some(m) => m,
        None => MarkovConfig::default(),
    }
}

fn key_text(service_id: &Option<String>) -> (r: String)
    ensures
        r@ == state_key(service_id.deep_view()),
{
    match service_id {
        Some(svc) => svc.clone(),
        None => {
            let s = String::new();
            assert(s@ =~= Seq::empty());
            s
        },
    }
}

fn state_in(
    states: &OrdMap<String, MarkovState>,
    service_id: &Option<String>,
    now: i128,
) -> (r: MarkovState)
    ensures
        r == state_of(states@, service_id.deep_view(), now),
{
    match states.get(&key_text(service_id)) {
        Some(st) => *st,
        None => MarkovState::new_at(now),
    }
}

/// The mean length in milliseconds of the spell that begins with a request at `now`,
/// if one does.
pub fn next_spell_mean_ms(
    cc: &ChaosConfig,
    states: &OrdMap<String, MarkovState>,
    service_id: &Option<String>,
    now: i128,
) -> (r: Option<u64>)
    ensures
        r == next_mean(cc.deep_view(), states@, service_id.deep_view(), now),
{
    match cc.chaos_model {
        ChaosModel::Uniform => None,
        ChaosModel::Markov => {
            let st = state_in(states, service_id, now);
            if st.expired(now) {
                Some(st.next_mean_ms(&markov_of(cc)))
            } else {
                None
            }
        },
    }
}

/// The bits of the error rate and of the latency multiplier for a request at `now`.
/// The state of the service is stepped; a spell that begins is `dwell_ms` long.
pub fn chaos_rates(
    cc: &ChaosConfig,
    states: &mut OrdMap<String, MarkovState>,
    service_id: &Option<String>,
    now: i128,
    dwell_ms: i64,
) -> (r: (u64, u64))
    ensures
        r == rates_for(cc.deep_view(), old(states)@, service_id.deep_view(), now, dwell_ms),
        final(states)@ == states_after(
            cc.deep_view(),
            old(states)@,
            service_id.deep_view(),
            now,
            dwell_ms,
        ),
{
    match cc.chaos_model {
        ChaosModel::Uniform => (cc.error_rate, ONE_BITS),
        ChaosModel::Markov => {
            let mut st = state_in(states, service_id, now);
            let (kind, _) = st.step(now, dwell_ms);
            states.insert(key_text(service_id), st);
            rates_in(kind, &markov_of(cc))
        },
    }
}

/// The states of other services stay.
pub proof fn law_markov_states_are_independent(
    cc: ChaosConfigView,
    states: Map<Seq<char>, MarkovState>,
    service_id: Option<Seq<char>>,
    now: i128,
    dwell_ms: i64,
    other: Seq<char>,
)
    requires
        other != state_key(service_id),
    ensures
        states_after(cc, states, service_id, now, dwell_ms).contains_key(other)
            == states.contains_key(other),
        states.contains_key(other) ==> states_after(cc, states, service_id, now, dwell_ms)[other]
            == states[other],
{
}

// ─── Errors ──────────────────────────────────────────────────────────────────

/// The injected error response and the status that it is reported with: an error of
/// the configuration if the error rate is positive and the draw fell below it.
pub open spec fn injected_error(
    cc: ChaosConfigView,
    rate: u64,
    below: bool,
    reached: Seq<bool>,
) -> Option<(ResponsePlanView, u16)> {
    if chaos::positive(rate) && below {
        match chaos::drawn_error(cc, reached) {
            Some(e) => Some((responses::chaos_answer(e), responses::reported_status(e))),
            None => None,
        }
    } else {
        None
    }
}

/// The injected error response and the status that it is reported with. `below` says
/// whether the draw fell below the error rate, `reached` which weights the draw among
/// the errors reached.
pub fn inject_error(cc: &ChaosConfig, rate: u64, below: bool, reached: &Vec<bool>) -> (r: Option<
    (ResponsePlan, u16),
>)
    ensures
        r.deep_view() == injected_error(cc.deep_view(), rate, below, reached@),
{
    if is_positive(rate) && below {
        match draw_error(cc, reached) {
            Some(e) => {
                let (plan, status) = chaos_response(&e);
                Some((plan, status))
            },
            None => None,
        }
    } else {
        None
    }
}

// ─── Reports ─────────────────────────────────────────────────────────────────

/// What is reported of an injection.
pub struct ChaosEvent {
    pub service_id: String,
    pub method: String,
    /// The path without its query and without ids.
    pub path: String,
    /// `both`, `error` or `latency`.
    pub chaos_type: String,
    /// The preset of the configuration, or `custom`.
    pub rule_name: String,
    pub injected_status: Option<u16>,
    pub injected_latency_ms: u64,
}

#[verifier::ext_equal]
pub struct ChaosEventView {
    pub service_id: Seq<char>,
    pub method: Seq<char>,
    pub path: Seq<char>,
    pub chaos_type: Seq<char>,
    pub rule_name: Seq<char>,
    pub injected_status: Option<u16>,
    pub injected_latency_ms: u64,
}

impl DeepView for ChaosEvent {
    type V = ChaosEventView;

    open spec fn deep_view(&self) -> ChaosEventView {
        ChaosEventView {
            service_id: self.service_id@,
            method: self.method@,
            path: self.path@,
            chaos_type: self.chaos_type@,
            rule_name: self.rule_name@,
            injected_status: self.injected_status,
            injected_latency_ms: self.injected_latency_ms,
        }
    }
}

/// What is reported of an injection, if anything was injected.
pub open spec fn reported(
    cc: ChaosConfigView,
    service_id: Option<Seq<char>>,
    method: Seq<char>,
    u: Seq<char>,
    status: Option<u16>,
    latency_ms: u64,
) -> Option<ChaosEventView> {
    if status is None && latency_ms == 0 {
        None
    } else {
        Some(
            ChaosEventView {
                service_id: state_key(service_id),
                method,
                path: chaos::scrubbed(u),
                chaos_type: if status is None {
                    "latency"@
                } else if latency_ms == 0 {
                    "error"@
                } else {
                    "both"@
                },
                rule_name: match cc.preset {
                    Some(p) => p,
                    None => "custom"@,
                },
                injected_status: status,
                injected_latency_ms: latency_ms,
            },
        )
    }
}

/// What is reported of an injection, if anything was injected.
pub fn chaos_event(cc: &ChaosConfig, req: &RoutedRequest, status: Option<u16>, latency_ms: u64) -> (r:
    Option<ChaosEvent>)
    ensures
        r.deep_view() == reported(
            cc.deep_view(),
            req.deep_view().service_id,
            req.method@,
            req.uri@,
            status,
            latency_ms,
        ),
{
    if status.is_none() && latency_ms == 0 {
        return None;
    }
    let chaos_type = if status.is_none() {
        "latency"
    } else if latency_ms == 0 {
        "error"
    } else {
        "both"
    };
    let rule_name = match &cc.preset {
        Some(p) => p.clone(),
        None => "custom".to_owned(),
    };
    Some(
        ChaosEvent {
            service_id: key_text(&req.service_id),
            method: req.method.clone(),
            path: scrub_path(req.uri.as_str()),
            chaos_type: chaos_type.to_owned(),
            rule_name,
            injected_status: status,
            injected_latency_ms: latency_ms,
        },
    )
}

/// A report tells nothing of the query of a request.
pub proof fn law_report_drops_query(
    cc: ChaosConfigView,
    service_id: Option<Seq<char>>,
    method: Seq<char>,
    a: Seq<char>,
    b: Seq<char>,
    status: Option<u16>,
    latency_ms: u64,
)
    requires
        uri::path_of(a) == uri::path_of(b),
    ensures
        reported(cc, service_id, method, a, status, latency_ms) == reported(
            cc,
            service_id,
            method,
            b,
            status,
            latency_ms,
        ),
{
    chaos::law_scrub_drops_query(a, b);
}

/// With the uniform model every request has the error rate of the configuration and its
/// own latency, and no state is kept.
pub proof fn law_uniform_rates(
    cc: ChaosConfigView,
    states: Map<Seq<char>, MarkovState>,
    service_id: Option<Seq<char>>,
    now: i128,
    dwell_ms: i64,
)
    requires
        cc.chaos_model == ChaosModel::Uniform,
    ensures
        rates_for(cc, states, service_id, now, dwell_ms).0 == cc.error_rate,
        rates_for(cc, states, service_id, now, dwell_ms).1 == 0x3ff0_0000_0000_0000,
        states_after(cc, states, service_id, now, dwell_ms) == states,
{
}

/// With the Markov model the spell of the service decides: within a spell the service is
/// as it was, after it the other way, and a new service becomes degraded. A degraded
/// service has the rate and the multiplier of the settings, or else those that count
/// without settings; a healthy one has no errors and its own latency.
pub proof fn law_markov_rates(
    cc: ChaosConfigView,
    states: Map<Seq<char>, MarkovState>,
    svc: Seq<char>,
    now: i128,
    dwell_ms: i64,
)
    requires
        cc.chaos_model == ChaosModel::Markov,
    ensures
        ({
            let after = states_after(cc, states, Some(svc), now, dwell_ms);
            let (rate, mult) = rates_for(cc, states, Some(svc), now, dwell_ms);
            &&& after.contains_key(svc)
            &&& states.contains_key(svc) && now < states[svc].dwell_until ==> after[svc]
                == states[svc]
            &&& states.contains_key(svc) && states[svc].dwell_until <= now ==> after[svc].kind
                != states[svc].kind
            &&& !states.contains_key(svc) ==> after[svc].kind
                == markov_chaos::StateKind::Degraded
            &&& after[svc].kind == markov_chaos::StateKind::Healthy ==> rate == 0 && mult
                == 0x3ff0_0000_0000_0000
            &&& after[svc].kind == markov_chaos::StateKind::Degraded && cc.markov is Some
                ==> rate == cc.markov->0.degraded_error_rate && mult
                == cc.markov->0.degraded_latency_mult
            &&& after[svc].kind == markov_chaos::StateKind::Degraded && cc.markov is None
                ==> rate == 0x3fe3_3333_3333_3333 && mult == 0x4014_0000_0000_0000
        }),
{
}

/// An error is injected exactly if the rate is positive, the draw fell below it and an
/// error is configured; it is the drawn one.
pub proof fn law_error_is_injected(cc: ChaosConfigView, rate: u64, below: bool, reached: Seq<bool>)
    ensures
        injected_error(cc, rate, below, reached) is Some <==> 0 < rate <= 0x7ff0_0000_0000_0000
            && below && chaos::drawn_error(cc, reached) is Some,
        injected_error(cc, rate, below, reached) is Some ==> ({
            let (plan, status) = injected_error(cc, rate, below, reached)->0;
            let e = chaos::drawn_error(cc, reached)->0;
            plan == responses::chaos_answer(e) && status == responses::reported_status(e)
        }),
{
}

/// The single error of a configuration is injected with its status and its body, marked
/// as injected, and is reported with its status.
pub proof fn law_single_error_is_injected(cc: ChaosConfigView, rate: u64, reached: Seq<bool>)
    requires
        100 <= cc.error_status <= 999,
        0 < rate <= 0x7ff0_0000_0000_0000,
        cc.error_codes.len() == 0,
    ensures
        injected_error(cc, rate, true, reached) is Some,
        ({
            let (plan, status) = injected_error(cc, rate, true, reached)->0;
            &&& plan.status == cc.error_status
            &&& plan.body == vstd::utf8::encode_utf8(cc.error_body)
            &&& plan.headers.contains(("x-ghost-chaos"@, "true"@))
            &&& status == cc.error_status
        }),
        injected_error(cc, rate, false, reached) is None,
        injected_error(cc, 0, true, reached) is None,
{
    chaos::law_single_error_is_drawn(cc, reached);
    let e = chaos::drawn_error(cc, reached)->0;
    assert(e.headers.dom() =~= Set::empty());
    responses::law_injected_error_is_as_configured(e);
}

/// A report says what was injected: an injected error with its status, an injected
/// latency with its milliseconds, both as `both`; nothing is reported if nothing was
/// injected. It names the service, the method and the preset, `custom` without one.
pub proof fn law_report_says_what_was_injected(
    cc: ChaosConfigView,
    service_id: Option<Seq<char>>,
    method: Seq<char>,
    u: Seq<char>,
    status: Option<u16>,
    latency_ms: u64,
)
    ensures
        ({
            let r = reported(cc, service_id, method, u, status, latency_ms);
            &&& r is None <==> status is None && latency_ms == 0
            &&& r is Some ==> {
                &&& r->0.method == method
                &&& r->0.path == chaos::scrubbed(u)
                &&& r->0.injected_status == status
                &&& r->0.injected_latency_ms == latency_ms
                &&& service_id is Some ==> r->0.service_id == service_id->0
                &&& service_id is None ==> r->0.service_id.len() == 0
                &&& cc.preset is Some ==> r->0.rule_name == cc.preset->0
                &&& cc.preset is None ==> r->0.rule_name == "custom"@
                &&& status is Some && latency_ms > 0 ==> r->0.chaos_type == "both"@
                &&& status is Some && latency_ms == 0 ==> r->0.chaos_type == "error"@
                &&& status is None ==> r->0.chaos_type == "latency"@
            }
        }),
{
}

/// The mean length in milliseconds of the spell that begins with a request at `now`, if
/// one does.
pub open spec fn next_mean(
    cc: ChaosConfigView,
    states: Map<Seq<char>, MarkovState>,
    service_id: Option<Seq<char>>,
    now: i128,
) -> Option<u64> {
    if cc.chaos_model == ChaosModel::Markov && state_of(states, service_id, now).dwell_until
        <= now {
        Some(
            markov_chaos::mean_dwell_ms(
                markov_chaos::other_kind(state_of(states, service_id, now).kind),
                markov_config(cc),
            ),
        )
    } else {
        None
    }
}

/// A spell begins exactly when the one before is over or the service is new; its mean
/// length is the one configured for the state that it is in.
pub proof fn law_spell_has_configured_mean(
    cc: ChaosConfigView,
    states: Map<Seq<char>, MarkovState>,
    svc: Seq<char>,
    now: i128,
    cfg: MarkovConfig,
)
    requires
        cc.chaos_model == ChaosModel::Markov,
        cc.markov == Some(cfg),
        cfg.mean_dwell_healthy_ms > 0,
        cfg.mean_dwell_degraded_ms > 0,
    ensures
        states.contains_key(svc) && now < states[svc].dwell_until ==> next_mean(
            cc,
            states,
            Some(svc),
            now,
        ) is None,
        states.contains_key(svc) && states[svc].dwell_until <= now && states[svc].kind
            == markov_chaos::StateKind::Healthy ==> next_mean(cc, states, Some(svc), now) == Some(
            cfg.mean_dwell_degraded_ms,
        ),
        states.contains_key(svc) && states[svc].dwell_until <= now && states[svc].kind
            == markov_chaos::StateKind::Degraded ==> next_mean(cc, states, Some(svc), now) == Some(
            cfg.mean_dwell_healthy_ms,
        ),
        !states.contains_key(svc) ==> next_mean(cc, states, Some(svc), now) == Some(
            cfg.mean_dwell_degraded_ms,
        ),
{
}

} // verus!
